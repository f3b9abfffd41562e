use vstd::prelude::*;

use crate::prefix::{BlockKey, IpPrefix, ipnet_text, spec_ipnet_text};
use crate::trie::{
    LookupTrie, addr_reading_wf, entries_wf, is_lookup_answer, lemma_longest_match_unique,
    lookup_accepts, query_of,
};

verus! {

/// What the scalar function keeps between calls: the table of announced
/// prefixes.
pub struct FirstLessSpecificState {
    trie: LookupTrie,
}

impl FirstLessSpecificState {
    /// The state that answers from `trie`.
    pub fn new(trie: LookupTrie) -> (s: FirstLessSpecificState)
        ensures
            s.entries() == trie@,
    {
        FirstLessSpecificState { trie }
    }

    /// The entries of the table the state answers from.
    pub closed spec fn entries(&self) -> Map<BlockKey, IpPrefix> {
        self.trie@
    }
}

/// The scalar function that maps each address or network of a column to the
/// longest announced prefix that contains it.
pub struct FirstLessSpecific;

/// `left IS NOT DISTINCT FROM right`: both null, or both the same text.
pub open spec fn not_distinct_spec(left: Option<Seq<char>>, right: Option<Seq<char>>) -> bool {
    left == right
}

/// `y` is what a lookup of `s` (with address reading `addr`) in `m` gives:
/// the text of the longest stored network that contains what `s` asks for,
/// or `None`.
pub open spec fn is_value_answer(
    m: Map<BlockKey, IpPrefix>,
    s: Seq<char>,
    addr: Option<(bool, u128)>,
    y: Option<Seq<char>>,
) -> bool {
    match y {
        None => is_lookup_answer(m, s, addr, None),
        Some(v) => exists|p: IpPrefix| v == spec_ipnet_text(p) && #[trigger] is_lookup_answer(m, s, addr, Some(p)),
    }
}

/// The output cell for an input cell: null for null, else the value of the
/// lookup.
pub open spec fn is_cell_answer(
    m: Map<BlockKey, IpPrefix>,
    x: Option<Seq<char>>,
    addr: Option<(bool, u128)>,
    y: Option<Seq<char>>,
) -> bool {
    match x {
        None => y is None,
        Some(s) => is_value_answer(m, s, addr, y),
    }
}

/// The input cells that a lookup accepts: null, or a text that can lose its
/// last four bytes.
pub open spec fn cells_accepted(input: Seq<Option<Seq<char>>>) -> bool {
    forall|i: int| 0 <= i < input.len() ==> (#[trigger] input[i] matches Some(s) ==> lookup_accepts(s))
}

/// The address readings belong to the cells: one per cell, each of the
/// right width, and equal cells have equal readings.
pub open spec fn readings_match(
    input: Seq<Option<Seq<char>>>,
    addrs: Seq<Option<(bool, u128)>>,
) -> bool {
    &&& addrs.len() == input.len()
    &&& forall|i: int| 0 <= i < addrs.len() ==> addr_reading_wf(#[trigger] addrs[i])
    &&& forall|i: int, j: int|
        0 <= i < input.len() && 0 <= j < input.len() && #[trigger] input[i] == #[trigger] input[j]
            ==> addrs[i] == addrs[j]
}

/// A cell has one answer: in a table whose entries are filed under their
/// own keys, two answers for the same cell and reading are the same.
pub proof fn lemma_cell_answer_unique(
    m: Map<BlockKey, IpPrefix>,
    x: Option<Seq<char>>,
    addr: Option<(bool, u128)>,
    y1: Option<Seq<char>>,
    y2: Option<Seq<char>>,
)
    requires
        entries_wf(m),
        is_cell_answer(m, x, addr, y1),
        is_cell_answer(m, x, addr, y2),
    ensures
        y1 == y2,
{
    if let Some(s) = x {
        if let Some(q) = query_of(s, addr) {
            let r1: Option<IpPrefix> = match y1 {
                Some(v) => Some(
                    choose|p: IpPrefix| v == spec_ipnet_text(p) && #[trigger] is_lookup_answer(m, s, addr, Some(p)),
                ),
                None => None,
            };
            let r2: Option<IpPrefix> = match y2 {
                Some(v) => Some(
                    choose|p: IpPrefix| v == spec_ipnet_text(p) && #[trigger] is_lookup_answer(m, s, addr, Some(p)),
                ),
                None => None,
            };
            lemma_longest_match_unique(m, q, r1, r2);
        }
    }
}

/// An output cell means what it says: a null cell gives a null cell; a
/// non-null output cell is the text of a stored network that the cell's
/// lookup answers with (see `lemma_network_query_answer` and
/// `lemma_address_query_answer` for what that answer is); a null output for
/// a text means its lookup found nothing; a cell that reads as neither a
/// network nor an address gives a null cell.
pub proof fn lemma_cell_answer_meaning(
    m: Map<BlockKey, IpPrefix>,
    x: Option<Seq<char>>,
    addr: Option<(bool, u128)>,
    y: Option<Seq<char>>,
)
    requires
        is_cell_answer(m, x, addr, y),
    ensures
        x is None ==> y is None,
        y matches Some(v) ==> (x matches Some(s) && query_of(s, addr) is Some && exists|p: IpPrefix|
            #[trigger] m.dom().contains(p.key()) && m[p.key()] == p && v == spec_ipnet_text(p)
                && is_lookup_answer(m, s, addr, Some(p))),
        x matches Some(s) && query_of(s, addr) is None ==> y is None,
        x is Some && y is None ==> is_lookup_answer(m, x->0, addr, None),
{
    if let Some(v) = y {
        if let Some(s) = x {
            let p = choose|p: IpPrefix| v == spec_ipnet_text(p) && #[trigger] is_lookup_answer(m, s, addr, Some(p));
            assert(m.dom().contains(p.key()));
        }
    }
}

/// Two cells are not distinct exactly when both are null or both hold the
/// same text.
pub proof fn lemma_not_distinct_meaning(left: Option<Seq<char>>, right: Option<Seq<char>>)
    ensures
        not_distinct_spec(left, right) <==> ((left is None && right is None) || (left matches Some(a)
            && right matches Some(b) && a == b)),
{
}

/// Null and text cells compared for `IS NOT DISTINCT FROM`.
pub fn not_distinct(left: &Option<String>, right: &Option<String>) -> (r: bool)
    ensures
        r == not_distinct_spec(left.deep_view(), right.deep_view()),
{
    match (left, right) {
        (None, None) => true,
        (Some(a), Some(b)) => a.eq(b),
        _ => false,
    }
}

/// For each cell but the last, whether the next cell is not distinct from it.
pub fn next_not_distinct(cells: &Vec<Option<String>>) -> (r: Vec<bool>)
    requires
        cells.len() >= 1,
    ensures
        r.len() == cells.len() - 1,
        forall|i: int|
            0 <= i < r.len() ==> #[trigger] r[i] == not_distinct_spec(
                cells.deep_view()[i],
                cells.deep_view()[i + 1],
            ),
{
    let n = cells.len();
    let mut r: Vec<bool> = Vec::new();
    for i in 0..n - 1
        invariant
            n == cells.len(),
            n >= 1,
            r.len() == i,
            forall|j: int|
                0 <= j < i ==> #[trigger] r[j] == not_distinct_spec(
                    cells.deep_view()[j],
                    cells.deep_view()[j + 1],
                ),
    {
        r.push(not_distinct(&cells[i], &cells[i + 1]));
    }
    r
}

/// The output cell for one input cell.
fn lookup_cell(trie: &LookupTrie, cell: &Option<String>, addr: Option<(bool, u128)>) -> (y: Option<String>)
    requires
        cell matches Some(s) ==> lookup_accepts(s@),
        addr_reading_wf(addr),
    ensures
        is_cell_answer(trie@, cell.deep_view(), addr, y.deep_view()),
{
    match cell {
        Some(s) => {
            let text = s.as_str();
            assert(text@ == s@);
            match trie.lookup(text, addr) {
                Some(p) => {
                    let y = ipnet_text(p);
                    assert(is_lookup_answer(trie@, s@, addr, Some(p)));
                    Some(y)
                },
                None => {
                    assert(is_lookup_answer(trie@, s@, addr, None));
                    None
                },
            }
        },
        None => None,
    }
}

/// Appends `count` copies of a cell.
fn push_copies(out: &mut Vec<Option<String>>, cell: &Option<String>, count: usize)
    ensures
        final(out).len() == old(out).len() + count,
        forall|j: int| 0 <= j < old(out).len() ==> final(out).deep_view()[j] == old(out).deep_view()[j],
        forall|j: int|
            old(out).len() <= j < final(out).len() ==> final(out).deep_view()[j] == cell.deep_view(),
{
    let ghost start = out.len();
    for k in 0..count
        invariant
            out.len() == start + k,
            start == old(out).len(),
            forall|j: int| 0 <= j < start ==> out.deep_view()[j] == old(out).deep_view()[j],
            forall|j: int| start <= j < out.len() ==> out.deep_view()[j] == cell.deep_view(),
    {
        let copy = match cell {
            Some(s) => Some(s.clone()),
            None => None,
        };
        let ghost prev = out.deep_view();
        out.push(copy);
        assert(out.deep_view() =~= prev.push(cell.deep_view()));
    }
}

impl FirstLessSpecific {
    /// Maps each cell of a column to the text of the longest stored network
    /// that contains it (null for a null cell or when none does). `addrs`
    /// holds each cell's reading as an IP address.
    pub fn invoke(
        info: &FirstLessSpecificState,
        input: &Vec<Option<String>>,
        addrs: &Vec<Option<(bool, u128)>>,
    ) -> (out: Vec<Option<String>>)
        requires
            input.len() >= 1,
            cells_accepted(input.deep_view()),
            readings_match(input.deep_view(), addrs@),
        ensures
            entries_wf(info.entries()),
            out.len() == input.len(),
            forall|i: int|
                0 <= i < input.len() ==> is_cell_answer(
                    info.entries(),
                    #[trigger] input.deep_view()[i],
                    addrs@[i],
                    out.deep_view()[i],
                ),
    {
        proof {
            use_type_invariant(&info.trie);
            info.trie.lemma_view();
        }
        let len = input.len();
        let ghost cells = input.deep_view();
        let ghost m = info.entries();
        let next_identical = next_not_distinct(input);
        let mut out: Vec<Option<String>> = Vec::new();
        let mut repetitions: usize = 0;
        let mut i: usize = 0;
        while i < len - 1
            invariant
                len == input.len(),
                cells == input.deep_view(),
                m == info.entries(),
                m == info.trie@,
                cells_accepted(cells),
                readings_match(cells, addrs@),
                next_identical.len() == len - 1,
                forall|j: int|
                    0 <= j < len - 1 ==> #[trigger] next_identical[j] == not_distinct_spec(
                        cells[j],
                        cells[j + 1],
                    ),
                i <= len - 1,
                out.len() + repetitions == i,
                forall|j: int|
                    0 <= j < out.len() ==> is_cell_answer(m, #[trigger] cells[j], addrs@[j], out.deep_view()[j]),
                forall|j: int| out.len() <= j <= i ==> #[trigger] cells[j] == cells[i as int],
            decreases len - 1 - i,
        {
            if next_identical[i] {
                repetitions = repetitions + 1;
            } else {
                let cell = lookup_cell(&info.trie, &input[i], addrs[i]);
                let ghost before = out.deep_view();
                push_copies(&mut out, &cell, repetitions + 1);
                assert forall|j: int| 0 <= j < out.len() implies is_cell_answer(
                    m,
                    #[trigger] cells[j],
                    addrs@[j],
                    out.deep_view()[j],
                ) by {
                    if j >= before.len() {
                        assert(cells[j] == cells[i as int]);
                        assert(addrs@[j] == addrs@[i as int]);
                    }
                }
                repetitions = 0;
            }
            i = i + 1;
        }
        assert(cells[len - 1] == input[len - 1].deep_view());
        let cell = lookup_cell(&info.trie, &input[len - 1], addrs[len - 1]);
        let ghost before = out.deep_view();
        push_copies(&mut out, &cell, repetitions + 1);
        assert forall|j: int| 0 <= j < input.len() implies is_cell_answer(
            m,
            #[trigger] cells[j],
            addrs@[j],
            out.deep_view()[j],
        ) by {
            if j >= before.len() {
                assert(cells[j] == cells[len - 1]);
                assert(addrs@[j] == addrs@[len - 1]);
            }
        }
        out
    }
}

} // verus!
