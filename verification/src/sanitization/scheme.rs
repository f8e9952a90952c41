//! Wipe schemes: named sequences of stages.

use crate::sanitization::stage::Stage;
use vstd::prelude::*;
use vstd::string::StringExecFns;
use vstd::string::StringSliceAdditionalSpecFns;
use vstd::utf8::encode_utf8;

verus! {

/// An ordered list of stages with a description for people.
#[derive(Debug, Clone)]
pub struct Scheme {
    pub description: String,
    pub stages: Vec<Stage>,
}

/// One entry of the registry.
#[derive(Debug, Clone)]
pub struct NamedScheme {
    pub name: String,
    pub scheme: Scheme,
}

/// The decimal digits of a number.
pub open spec fn decimal_text(n: nat) -> Seq<char>
    decreases n,
{
    if n < 10 {
        seq![('0' as u8 + n) as char]
    } else {
        decimal_text(n / 10).push(('0' as u8 + n % 10) as char)
    }
}

/// A number as text, by the standard formatting of integers: its decimal
/// digits, without sign or padding.
#[verifier::external_body]
fn decimal(n: usize) -> (text: String)
    ensures
        text@ == decimal_text(n as nat),
{
    format!("{}", n)
}

/// The lines that list the first `count` stages of a scheme, a stage to a
/// line.
pub open spec fn stage_lines(stages: Seq<Stage>, count: int) -> Seq<char>
    decreases count,
{
    if count <= 0 {
        Seq::empty()
    } else {
        stage_lines(stages, count - 1) + "- "@ + stages[count - 1].description() + "\n"@
    }
}

/// What is said of a scheme to the user: its description, the number of its
/// passes, and its stages.
pub open spec fn scheme_text(scheme: Scheme) -> Seq<char> {
    let count = scheme.stages@.len();
    scheme.description@ + ", "@ + decimal_text(count) + " "@ + (if count != 1 {
        "passes"@
    } else {
        "pass"@
    }) + "\n"@ + stage_lines(scheme.stages@, count as int)
}

/// Describes a scheme to the user.
pub fn describe_scheme(scheme: &Scheme) -> (text: String)
    ensures
        text@ == scheme_text(*scheme),
{
    let stages_count = scheme.stages.len();
    let passes = if stages_count != 1 {
        "passes"
    } else {
        "pass"
    };
    let mut s = scheme.description.clone();
    s.append(", ");
    s.append(decimal(stages_count).as_str());
    s.append(" ");
    s.append(passes);
    s.append("\n");
    let ghost head = s@;
    let mut i: usize = 0;
    while i < scheme.stages.len()
        invariant
            i <= scheme.stages@.len(),
            s@ == head + stage_lines(scheme.stages@, i as int),
        decreases scheme.stages@.len() - i,
    {
        let ghost before = s@;
        s.append("- ");
        s.append(scheme.stages[i].describe().as_str());
        s.append("\n");
        assert(s@ =~= head + stage_lines(scheme.stages@, i as int + 1));
        i = i + 1;
    }
    s
}

/// What a stage writes, with the seed of a random stage left out: the byte of
/// a constant stage, nothing for a random one.
pub open spec fn stage_kind(stage: Stage) -> Option<u8> {
    match stage {
        Stage::Fill { value } => Some(value),
        Stage::Random { .. } => None,
    }
}

/// What the stages of a scheme write, in order.
pub open spec fn stage_kinds(stages: Seq<Stage>) -> Seq<Option<u8>> {
    Seq::new(stages.len(), |i: int| stage_kind(stages[i]))
}

/// Whether an entry is called `name`, says `description` of itself and has
/// stages that write what `kinds` lists.
pub open spec fn is_scheme(
    entry: NamedScheme,
    name: Seq<char>,
    description: Seq<char>,
    kinds: Seq<Option<u8>>,
) -> bool {
    &&& entry.name@ == name
    &&& entry.scheme.description@ == description
    &&& stage_kinds(entry.scheme.stages@) == kinds
}

/// Makes a registry entry.
fn named(name: &str, description: &str, stages: Vec<Stage>) -> (entry: NamedScheme)
    ensures
        entry.name@ == name@,
        entry.scheme.description@ == description@,
        entry.scheme.stages == stages,
{
    NamedScheme {
        name: String::from_str(name),
        scheme: Scheme { description: String::from_str(description), stages },
    }
}

/// The registry of schemes, looked up by exact name.
pub struct SchemeRepo {
    schemes: Vec<NamedScheme>,
}

/// Whether the bytes `a` come before the bytes `b` in the order of a
/// dictionary: at the first place where the two differ `a` has the smaller
/// byte, or `a` ends there and `b` goes on.
pub open spec fn bytes_before(a: Seq<u8>, b: Seq<u8>) -> bool {
    exists|k: int| differ_at(a, b, k)
}

/// Whether `a` and `b` agree up to place `k`, where `a` falls behind `b`.
pub open spec fn differ_at(a: Seq<u8>, b: Seq<u8>, k: int) -> bool {
    &&& 0 <= k <= a.len()
    &&& k < b.len()
    &&& forall|i: int| 0 <= i < k ==> a[i] == b[i]
    &&& k < a.len() ==> a[k] < b[k]
}

/// Whether the name `a` comes before the name `b`: names are ordered as the
/// bytes of their UTF-8 encoding are.
pub open spec fn name_before(a: Seq<char>, b: Seq<char>) -> bool {
    bytes_before(encode_utf8(a), encode_utf8(b))
}

/// Whether no entry of a list comes after an entry whose name comes after
/// its own.
pub open spec fn sorted_by_name(entries: Seq<NamedScheme>) -> bool {
    forall|i: int, j: int|
        0 <= i < j < entries.len() ==> !name_before(
            #[trigger] entries[j].name@,
            #[trigger] entries[i].name@,
        )
}

/// Of two sequences of bytes neither comes before the other, or one does and
/// the other does not.
pub proof fn lemma_bytes_before_is_one_way(a: Seq<u8>, b: Seq<u8>)
    requires
        bytes_before(a, b),
    ensures
        !bytes_before(b, a),
        a != b,
{
    let k = choose|k: int| differ_at(a, b, k);
    if bytes_before(b, a) {
        let m = choose|m: int| differ_at(b, a, m);
        if m < k {
            assert(a[m] == b[m]);
        } else if k < m {
            assert(b[k] == a[k]);
        }
    }
}

/// What comes before something that comes before a third thing comes before
/// the third thing.
pub proof fn lemma_bytes_before_is_transitive(a: Seq<u8>, b: Seq<u8>, c: Seq<u8>)
    requires
        bytes_before(a, b),
        bytes_before(b, c),
    ensures
        bytes_before(a, c),
{
    let k = choose|k: int| differ_at(a, b, k);
    let m = choose|m: int| differ_at(b, c, m);
    let n = if k < m {
        k
    } else {
        m
    };
    assert forall|i: int| 0 <= i < n implies a[i] == c[i] by {
        assert(a[i] == b[i]);
        assert(b[i] == c[i]);
    }
    if n < a.len() {
        if k < m {
            assert(b[k] == c[k]);
        } else if m < k {
            assert(a[m] == b[m]);
        }
    }
    assert(differ_at(a, c, n));
}

/// Whether the names of a list rise: every entry's name comes before that
/// of every entry after it, so that no name occurs twice.
pub open spec fn rising_by_name(entries: Seq<NamedScheme>) -> bool {
    forall|i: int, j: int|
        0 <= i < j < entries.len() ==> name_before(
            #[trigger] entries[i].name@,
            #[trigger] entries[j].name@,
        )
}

/// Whether entry `k` is the last of `given` that is called `name`.
pub open spec fn last_named(given: Seq<NamedScheme>, name: Seq<char>, k: int) -> bool {
    &&& 0 <= k < given.len()
    &&& given[k].name@ == name
    &&& forall|j: int| k < j < given.len() ==> given[j].name@ != name
}

/// Whether entry `i` of `entries` is the last of `given` with its name.
pub open spec fn taken_from(entries: Seq<NamedScheme>, given: Seq<NamedScheme>, i: int) -> bool {
    exists|k: int| #[trigger] last_named(given, entries[i].name@, k) && given[k] == entries[i]
}

/// Whether the name of entry `k` of `given` is the name of an entry of
/// `entries`.
pub open spec fn kept_in(entries: Seq<NamedScheme>, given: Seq<NamedScheme>, k: int) -> bool {
    exists|i: int| 0 <= i < entries.len() && (#[trigger] entries[i]).name@ == given[k].name@
}

/// Whether `entries` lists what was `given` as a mapping from names does:
/// under every name that was given it lists the last entry given under that
/// name, and it lists nothing else.
pub open spec fn lists(entries: Seq<NamedScheme>, given: Seq<NamedScheme>) -> bool {
    &&& forall|i: int| 0 <= i < entries.len() ==> #[trigger] taken_from(entries, given, i)
    &&& forall|k: int| 0 <= k < given.len() ==> #[trigger] kept_in(entries, given, k)
}

/// A name that comes before another is another name.
pub proof fn lemma_name_before_is_another(a: Seq<char>, b: Seq<char>)
    requires
        name_before(a, b),
    ensures
        a != b,
        !name_before(b, a),
{
    lemma_bytes_before_is_one_way(encode_utf8(a), encode_utf8(b));
}

/// The place that entry `a` of a listing had before an entry was put in at
/// place `p`, in the place of another or between two.
pub open spec fn place_before(replaced: bool, p: int, a: int) -> int {
    if replaced || a < p {
        a
    } else {
        a - 1
    }
}

/// What one more entry makes of a listing: put in its place among rising
/// names, or in the place of the entry of the same name, it leaves the names
/// rising and the listing one of what was given up to and with that entry.
proof fn lemma_listing_gains(
    done: Seq<NamedScheme>,
    given: Seq<NamedScheme>,
    n: int,
    p: int,
    replaced: bool,
    after: Seq<NamedScheme>,
)
    requires
        0 <= n < given.len(),
        rising_by_name(done),
        lists(done, given.take(n)),
        0 <= p <= done.len(),
        forall|i: int| 0 <= i < p ==> name_before(#[trigger] done[i].name@, given[n].name@),
        replaced ==> p < done.len() && done[p].name@ == given[n].name@ && after == done.update(
            p,
            given[n],
        ),
        !replaced ==> (p < done.len() ==> name_before(given[n].name@, done[p].name@)) && after
            == done.insert(p, given[n]),
    ensures
        rising_by_name(after),
        lists(after, given.take(n + 1)),
{
    let entry = given[n];
    let earlier = given.take(n);
    let now = given.take(n + 1);
    let skip: int = if replaced {
        1
    } else {
        0
    };
    // Every entry from place `p` on, but the one replaced, comes after the new one.
    assert forall|i: int| p + skip <= i < done.len() implies name_before(
        entry.name@,
        #[trigger] done[i].name@,
    ) by {
        if i > p {
            assert(name_before(done[p].name@, done[i].name@));
            if !replaced {
                lemma_bytes_before_is_transitive(
                    encode_utf8(entry.name@),
                    encode_utf8(done[p].name@),
                    encode_utf8(done[i].name@),
                );
            }
        }
    }
    // Where entry `a` of the new listing was in the old one, if it was.
    assert forall|a: int| 0 <= a < after.len() && a != p implies 0 <= place_before(replaced, p, a) < done.len()
        && #[trigger] after[a] == done[place_before(replaced, p, a)] && done[place_before(replaced, p, a)].name@ != entry.name@ by {
        let i = place_before(replaced, p, a);
        if i < p {
            lemma_name_before_is_another(done[i].name@, entry.name@);
        } else {
            lemma_name_before_is_another(entry.name@, done[i].name@);
        }
    }
    assert(after[p] == entry);
    assert forall|i: int, j: int| 0 <= i < j < after.len() implies name_before(
        #[trigger] after[i].name@,
        #[trigger] after[j].name@,
    ) by {
        if i == p {
            assert(after[j] == done[place_before(replaced, p, j)]);
        } else if j == p {
            assert(after[i] == done[place_before(replaced, p, i)]);
        } else {
            assert(after[i] == done[place_before(replaced, p, i)]);
            assert(after[j] == done[place_before(replaced, p, j)]);
            assert(name_before(done[place_before(replaced, p, i)].name@, done[place_before(replaced, p, j)].name@));
        }
    }
    assert forall|a: int| 0 <= a < after.len() implies #[trigger] taken_from(after, now, a) by {
        if a == p {
            assert(now[n] == entry);
            assert(last_named(now, after[a].name@, n));
        } else {
            let i = place_before(replaced, p, a);
            assert(after[a] == done[i]);
            assert(taken_from(done, earlier, i));
            let k = choose|k: int| #[trigger]
                last_named(earlier, done[i].name@, k) && earlier[k] == done[i];
            assert(now[k] == earlier[k]);
            assert forall|j: int| k < j < now.len() implies now[j].name@ != done[i].name@ by {
                if j < n {
                    assert(now[j] == earlier[j]);
                } else {
                    assert(now[j] == entry);
                }
            }
            assert(last_named(now, after[a].name@, k));
        }
    }
    assert forall|k: int| 0 <= k < now.len() implies #[trigger] kept_in(after, now, k) by {
        if k == n {
            assert(after[p].name@ == now[k].name@);
        } else {
            assert(now[k] == earlier[k]);
            assert(kept_in(done, earlier, k));
            let i = choose|i: int|
                0 <= i < done.len() && (#[trigger] done[i]).name@ == earlier[k].name@;
            let a = if replaced || i < p {
                i
            } else {
                i + 1
            };
            if a == p {
                assert(after[a].name@ == now[k].name@);
            } else {
                assert(place_before(replaced, p, a) == i);
                assert(after[a] == done[i]);
            }
        }
    }
}

/// Names that rise are sorted.
pub proof fn lemma_rising_is_sorted(entries: Seq<NamedScheme>)
    requires
        rising_by_name(entries),
    ensures
        sorted_by_name(entries),
{
    assert forall|i: int, j: int| 0 <= i < j < entries.len() implies !name_before(
        #[trigger] entries[j].name@,
        #[trigger] entries[i].name@,
    ) by {
        lemma_name_before_is_another(entries[i].name@, entries[j].name@);
    }
}

/// A list in which every entry's name comes before that of the next entry is
/// sorted by name, and no two of its entries share a name.
pub proof fn lemma_rising_names_are_sorted(entries: Seq<NamedScheme>)
    requires
        forall|i: int|
            0 <= i < entries.len() - 1 ==> name_before(
                #[trigger] entries[i].name@,
                entries[i + 1].name@,
            ),
    ensures
        sorted_by_name(entries),
        forall|i: int, j: int|
            0 <= i < j < entries.len() ==> name_before(
                #[trigger] entries[i].name@,
                #[trigger] entries[j].name@,
            ),
{
    assert forall|i: int, j: int| 0 <= i < j < entries.len() implies name_before(
        #[trigger] entries[i].name@,
        #[trigger] entries[j].name@,
    ) by {
        lemma_rising_names_reach(entries, i, j);
    }
    assert forall|i: int, j: int| 0 <= i < j < entries.len() implies !name_before(
        #[trigger] entries[j].name@,
        #[trigger] entries[i].name@,
    ) by {
        lemma_bytes_before_is_one_way(encode_utf8(entries[i].name@), encode_utf8(entries[j].name@));
    }
}

/// In a list of rising names an entry's name comes before that of every
/// later entry.
proof fn lemma_rising_names_reach(entries: Seq<NamedScheme>, i: int, j: int)
    requires
        forall|k: int|
            0 <= k < entries.len() - 1 ==> name_before(
                #[trigger] entries[k].name@,
                entries[k + 1].name@,
            ),
        0 <= i < j < entries.len(),
    ensures
        name_before(entries[i].name@, entries[j].name@),
    decreases j - i,
{
    if i + 1 < j {
        lemma_rising_names_reach(entries, i, j - 1);
        assert(name_before(entries[j - 1].name@, entries[j - 1 + 1].name@));
        lemma_bytes_before_is_transitive(
            encode_utf8(entries[i].name@),
            encode_utf8(entries[j - 1].name@),
            encode_utf8(entries[j].name@),
        );
    } else {
        assert(name_before(entries[i].name@, entries[i + 1].name@));
    }
}

/// Of two names in plain ASCII the one with the smaller first character
/// comes first.
proof fn lemma_first_character_decides(a: Seq<char>, b: Seq<char>)
    requires
        vstd::utf8::is_ascii_chars(a),
        vstd::utf8::is_ascii_chars(b),
        a.len() > 0,
        b.len() > 0,
        a[0] < b[0],
    ensures
        name_before(a, b),
{
    vstd::utf8::is_ascii_chars_encode_utf8(a);
    vstd::utf8::is_ascii_chars_encode_utf8(b);
    assert(encode_utf8(a)[0] == a[0] as u8);
    assert(encode_utf8(b)[0] == b[0] as u8);
    assert(differ_at(encode_utf8(a), encode_utf8(b), 0));
}

/// A name in plain ASCII comes before every longer name that begins with it.
proof fn lemma_beginning_comes_first(a: Seq<char>, b: Seq<char>)
    requires
        vstd::utf8::is_ascii_chars(a),
        vstd::utf8::is_ascii_chars(b),
        a.len() < b.len(),
        forall|i: int| 0 <= i < a.len() ==> a[i] == b[i],
    ensures
        name_before(a, b),
{
    vstd::utf8::is_ascii_chars_encode_utf8(a);
    vstd::utf8::is_ascii_chars_encode_utf8(b);
    assert forall|i: int| 0 <= i < a.len() implies encode_utf8(a)[i] == encode_utf8(b)[i] by {
        assert(encode_utf8(a)[i] == a[i] as u8);
        assert(encode_utf8(b)[i] == b[i] as u8);
    }
    assert(differ_at(encode_utf8(a), encode_utf8(b), a.len() as int));
}

/// The names of the built-in schemes, in the order of names.
proof fn lemma_built_in_names_rise()
    ensures
        name_before("badblocks"@, "dod"@),
        name_before("dod"@, "gost"@),
        name_before("gost"@, "random"@),
        name_before("random"@, "random2x"@),
        name_before("random2x"@, "vsitr"@),
        name_before("vsitr"@, "zero"@),
{
    reveal_strlit("badblocks");
    reveal_strlit("dod");
    reveal_strlit("gost");
    reveal_strlit("random");
    reveal_strlit("random2x");
    reveal_strlit("vsitr");
    reveal_strlit("zero");
    lemma_first_character_decides("badblocks"@, "dod"@);
    lemma_first_character_decides("dod"@, "gost"@);
    lemma_first_character_decides("gost"@, "random"@);
    lemma_beginning_comes_first("random"@, "random2x"@);
    lemma_first_character_decides("random2x"@, "vsitr"@);
    lemma_first_character_decides("vsitr"@, "zero"@);
}

/// How one name stands to another in the order of names.
#[derive(Debug, Clone, Copy, PartialEq, Eq, Structural)]
pub enum NameOrder {
    Before,
    Same,
    After,
}

/// Tells how the name `a` stands to the name `b`.
pub fn order_names(a: &str, b: &str) -> (order: NameOrder)
    ensures
        match order {
            NameOrder::Before => name_before(a@, b@),
            NameOrder::Same => a@ == b@,
            NameOrder::After => name_before(b@, a@),
        },
{
    let x = a.as_bytes();
    let y = b.as_bytes();
    let mut i: usize = 0;
    while i < x.len() && i < y.len() && x[i] == y[i]
        invariant
            i <= x@.len(),
            i <= y@.len(),
            forall|j: int| 0 <= j < i ==> x@[j] == y@[j],
        decreases x@.len() - i,
    {
        i = i + 1;
    }
    if i < x.len() && i < y.len() {
        if x[i] < y[i] {
            assert(differ_at(x@, y@, i as int));
            NameOrder::Before
        } else {
            assert(differ_at(y@, x@, i as int));
            NameOrder::After
        }
    } else if i < y.len() {
        assert(differ_at(x@, y@, i as int));
        NameOrder::Before
    } else if i < x.len() {
        assert(differ_at(y@, x@, i as int));
        NameOrder::After
    } else {
        proof {
            assert(x@ =~= y@);
            vstd::utf8::encode_utf8_decode_utf8(a@);
            vstd::utf8::encode_utf8_decode_utf8(b@);
        }
        NameOrder::Same
    }
}

/// Whether entry `i` is the first entry called `name`.
pub open spec fn first_named(entries: Seq<NamedScheme>, name: Seq<char>, i: int) -> bool {
    &&& 0 <= i < entries.len()
    &&& entries[i].name@ == name
    &&& forall|j: int| 0 <= j < i ==> entries[j].name@ != name
}

impl SchemeRepo {
    /// The entries of the registry, in the order in which they are listed.
    pub closed spec fn entries(&self) -> Seq<NamedScheme> {
        self.schemes@
    }

    /// A registry of the given entries, as a mapping from names to schemes
    /// would hold them: listed by name in the order of names, no name twice,
    /// and under a name that was given more than once the entry that was
    /// given last.
    pub fn new(schemes: Vec<NamedScheme>) -> (repo: SchemeRepo)
        ensures
            rising_by_name(repo.entries()),
            sorted_by_name(repo.entries()),
            lists(repo.entries(), schemes@),
    {
        let mut rest = schemes;
        let mut sorted: Vec<NamedScheme> = Vec::new();
        let ghost mut n: int = 0;
        proof {
            assert(rest@ =~= schemes@.skip(0));
        }
        while rest.len() > 0
            invariant
                0 <= n <= schemes@.len(),
                rest@ == schemes@.skip(n),
                rising_by_name(sorted@),
                lists(sorted@, schemes@.take(n)),
            decreases rest@.len(),
        {
            let ghost done = sorted@;
            let entry = rest.remove(0);
            proof {
                assert(entry == schemes@[n]);
                assert(rest@ =~= schemes@.skip(n + 1));
            }
            let mut p: usize = 0;
            let mut replaced = false;
            while p < sorted.len()
                invariant_except_break
                    !replaced,
                invariant
                    p <= sorted@.len(),
                    sorted@ == done,
                    forall|i: int| 0 <= i < p ==> name_before(#[trigger] done[i].name@, entry.name@),
                ensures
                    replaced ==> p < done.len() && done[p as int].name@ == entry.name@,
                    !replaced && p < done.len() ==> name_before(entry.name@, done[p as int].name@),
                decreases sorted@.len() - p,
            {
                match order_names(sorted[p].name.as_str(), entry.name.as_str()) {
                    NameOrder::Before => {
                        p = p + 1;
                    },
                    NameOrder::Same => {
                        replaced = true;
                        break ;
                    },
                    NameOrder::After => {
                        break ;
                    },
                }
            }
            if replaced {
                sorted.remove(p);
            }
            sorted.insert(p, entry);
            proof {
                if replaced {
                    assert(sorted@ =~= done.update(p as int, entry));
                }
                lemma_listing_gains(done, schemes@, n, p as int, replaced, sorted@);
                n = n + 1;
            }
        }
        proof {
            assert(schemes@.take(n) =~= schemes@);
            lemma_rising_is_sorted(sorted@);
        }
        SchemeRepo { schemes: sorted }
    }

    /// The registry of the built-in schemes, listed by name in alphabetical
    /// order. Every random stage gets a seed of its own.
    pub fn default() -> (repo: SchemeRepo)
        ensures
            repo.entries().len() == 7,
            is_scheme(
                repo.entries()[0],
                "badblocks"@,
                "Inspired by a badblocks tool -w action."@,
                seq![Some(0xaau8), Some(0x55u8), Some(0xffu8), Some(0x00u8)],
            ),
            is_scheme(
                repo.entries()[1],
                "dod"@,
                "DoD 5220.22-M / CSEC ITSG-06 / NAVSO P-5239-26"@,
                seq![Some(0x00u8), Some(0xffu8), None],
            ),
            is_scheme(
                repo.entries()[2],
                "gost"@,
                "GOST R 50739-95 (fake)"@,
                seq![Some(0x00u8), None],
            ),
            is_scheme(repo.entries()[3], "random"@, "Single random fill"@, seq![None]),
            is_scheme(repo.entries()[4], "random2x"@, "Double random fill"@, seq![None, None]),
            is_scheme(
                repo.entries()[5],
                "vsitr"@,
                "VSITR / RCMP TSSIT OPS-II"@,
                seq![
                    Some(0x00u8),
                    Some(0xffu8),
                    Some(0x00u8),
                    Some(0xffu8),
                    Some(0x00u8),
                    Some(0xffu8),
                    None,
                ],
            ),
            is_scheme(repo.entries()[6], "zero"@, "Single zeroes fill"@, seq![Some(0x00u8)]),
            sorted_by_name(repo.entries()),
            rising_by_name(repo.entries()),
    {
        let badblocks = named(
            "badblocks",
            "Inspired by a badblocks tool -w action.",
            vec![
                Stage::constant(0xaa),
                Stage::constant(0x55),
                Stage::constant(0xff),
                Stage::constant(0x00),
            ],
        );
        let dod = named(
            "dod",
            "DoD 5220.22-M / CSEC ITSG-06 / NAVSO P-5239-26",
            vec![Stage::zero(), Stage::one(), Stage::random()],
        );
        let gost = named("gost", "GOST R 50739-95 (fake)", vec![Stage::zero(), Stage::random()]);
        let random = named("random", "Single random fill", vec![Stage::random()]);
        let random2x = named(
            "random2x",
            "Double random fill",
            vec![Stage::random(), Stage::random()],
        );
        let vsitr = named(
            "vsitr",
            "VSITR / RCMP TSSIT OPS-II",
            vec![
                Stage::zero(),
                Stage::one(),
                Stage::zero(),
                Stage::one(),
                Stage::zero(),
                Stage::one(),
                Stage::random(),
            ],
        );
        let zero = named("zero", "Single zeroes fill", vec![Stage::zero()]);
        proof {
            assert(stage_kinds(badblocks.scheme.stages@) =~= seq![
                Some(0xaau8),
                Some(0x55u8),
                Some(0xffu8),
                Some(0x00u8),
            ]);
            assert(stage_kinds(dod.scheme.stages@) =~= seq![Some(0x00u8), Some(0xffu8), None]);
            assert(stage_kinds(gost.scheme.stages@) =~= seq![Some(0x00u8), None]);
            assert(stage_kinds(random.scheme.stages@) =~= seq![None]);
            assert(stage_kinds(random2x.scheme.stages@) =~= seq![None, None]);
            assert(stage_kinds(vsitr.scheme.stages@) =~= seq![
                Some(0x00u8),
                Some(0xffu8),
                Some(0x00u8),
                Some(0xffu8),
                Some(0x00u8),
                Some(0xffu8),
                None,
            ]);
            assert(stage_kinds(zero.scheme.stages@) =~= seq![Some(0x00u8)]);
        }
        let repo = SchemeRepo {
            schemes: vec![badblocks, dod, gost, random, random2x, vsitr, zero],
        };
        proof {
            lemma_built_in_names_rise();
            lemma_rising_names_are_sorted(repo.entries());
        }
        repo
    }

    /// All entries, in listing order.
    pub fn all(&self) -> (entries: &Vec<NamedScheme>)
        ensures
            entries@ == self.entries(),
    {
        &self.schemes
    }

    /// The scheme called `name`: the first entry of that name, if any.
    pub fn find(&self, name: &str) -> (found: Option<&Scheme>)
        ensures
            match found {
                Some(scheme) => exists|i: int|
                    #[trigger] first_named(self.entries(), name@, i) && self.entries()[i].scheme
                        == *scheme,
                None => forall|i: int|
                    0 <= i < self.entries().len() ==> self.entries()[i].name@ != name@,
            },
    {
        let wanted = String::from_str(name);
        let mut i: usize = 0;
        while i < self.schemes.len()
            invariant
                i <= self.schemes.len(),
                wanted@ == name@,
                forall|j: int| 0 <= j < i ==> self.schemes@[j].name@ != name@,
            decreases self.schemes.len() - i,
        {
            if self.schemes[i].name == wanted {
                assert(first_named(self.entries(), name@, i as int));
                return Some(&self.schemes[i].scheme);
            }
            i = i + 1;
        }
        None
    }
}

} // verus!
