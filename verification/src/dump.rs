use vstd::prelude::*;
use vstd::utf8::{decode_utf8, valid_utf8};
use flate2::read::GzDecoder;
use std::io::Read;

use crate::prefix::{BlockKey, IpPrefix, parse_ipnet, spec_parse_ipnet};
use crate::trie::{LookupTrie, UnitTrie, entries_wf, trie_entries, trie_insert, trie_new};

verus! {

/// Number of header lines at the top of a RIS whois dump.
pub const RISWHOIS_HEADER_LINES: usize = 17;

/// Position of the first `c` in `s`, or `s.len()` when `c` does not occur.
pub open spec fn index_of(s: Seq<char>, c: char) -> nat
    decreases s.len(),
{
    if s.len() == 0 {
        0
    } else if s[0] == c {
        0
    } else {
        1 + index_of(s.drop_first(), c)
    }
}

/// A line without its trailing `\r`, if it has one.
pub open spec fn strip_cr(line: Seq<char>) -> Seq<char> {
    if line.len() > 0 && line.last() == '\r' {
        line.drop_last()
    } else {
        line
    }
}

/// The lines of a text as `BufRead::lines` yields them: the text split at
/// each `\n`, with the `\n` and a `\r` just before it removed; a final line
/// that no `\n` ends is kept as it is, and a text that ends with `\n` has no
/// empty line after it.
pub open spec fn text_lines(text: Seq<char>) -> Seq<Seq<char>>
    decreases text.len(),
{
    if text.len() == 0 {
        seq![]
    } else {
        let k = index_of(text, '\n');
        if k < text.len() {
            seq![strip_cr(text.take(k as int))] + text_lines(text.skip(k + 1int))
        } else {
            seq![text]
        }
    }
}

/// The second tab-separated column of a line, if the line has a tab: what
/// lies between the first tab and the next tab or the end of the line.
pub open spec fn second_field(line: Seq<char>) -> Option<Seq<char>> {
    let i = index_of(line, '\t');
    if i < line.len() {
        let rest = line.skip(i + 1int);
        Some(rest.take(index_of(rest, '\t') as int))
    } else {
        None
    }
}

/// The second columns of the lines that have one, in order.
pub open spec fn second_fields(lines: Seq<Seq<char>>) -> Seq<Seq<char>>
    decreases lines.len(),
{
    if lines.len() == 0 {
        seq![]
    } else {
        let init = second_fields(lines.drop_last());
        match second_field(lines.last()) {
            Some(f) => init.push(f),
            None => init,
        }
    }
}

/// The second columns of the lines after the header.
pub open spec fn body_fields(lines: Seq<Seq<char>>) -> Seq<Seq<char>> {
    if lines.len() <= RISWHOIS_HEADER_LINES {
        seq![]
    } else {
        second_fields(lines.skip(RISWHOIS_HEADER_LINES as int))
    }
}

/// The prefixes that a RIS whois dump lists: the second column of each line
/// after the header.
pub open spec fn dump_prefixes(text: Seq<char>) -> Seq<Seq<char>> {
    body_fields(text_lines(text))
}

/// `index_of` is the first position of `c`, or the length.
proof fn lemma_index_of(s: Seq<char>, c: char, i: int)
    requires
        0 <= i <= s.len(),
        forall|j: int| 0 <= j < i ==> s[j] != c,
        i == s.len() || s[i] == c,
    ensures
        index_of(s, c) == i,
    decreases i,
{
    if i > 0 {
        lemma_index_of(s.drop_first(), c, i - 1);
    }
}

/// What `index_of` finds: no `c` before it, and `c` at it unless it is the
/// length.
proof fn lemma_index_of_found(s: Seq<char>, c: char)
    ensures
        index_of(s, c) <= s.len(),
        forall|j: int| 0 <= j < index_of(s, c) ==> s[j] != c,
        index_of(s, c) < s.len() ==> s[index_of(s, c) as int] == c,
    decreases s.len(),
{
    if s.len() > 0 && s[0] != c {
        lemma_index_of_found(s.drop_first(), c);
        assert forall|j: int| 0 <= j < index_of(s, c) implies s[j] != c by {
            if j > 0 {
                assert(s[j] == s.drop_first()[j - 1]);
            }
        }
    }
}

/// The second column of a line with a tab is the whole text between its
/// first tab and the next tab, or the end of the line: it starts right
/// after the first tab, holds no tab, and what follows it in the line is a
/// tab or nothing.
pub proof fn lemma_second_field_is_column(line: Seq<char>, i: int)
    requires
        0 <= i < line.len(),
        line[i] == '\t',
        forall|j: int| 0 <= j < i ==> line[j] != '\t',
    ensures
        second_field(line) matches Some(f) && {
            let e = i + 1 + f.len();
            &&& e <= line.len()
            &&& f == line.subrange(i + 1, e)
            &&& forall|j: int| 0 <= j < f.len() ==> f[j] != '\t'
            &&& (e == line.len() || line[e] == '\t')
        },
{
    lemma_index_of(line, '\t', i);
    let rest = line.skip(i + 1);
    lemma_index_of_found(rest, '\t');
    let k = index_of(rest, '\t') as int;
    let f = rest.take(k);
    assert(f =~= line.subrange(i + 1, i + 1 + k));
    if i + 1 + k < line.len() {
        assert(line[i + 1 + k] == rest[k]);
    }
}

/// A line without a tab has no second column.
pub proof fn lemma_second_field_needs_tab(line: Seq<char>)
    requires
        forall|j: int| 0 <= j < line.len() ==> line[j] != '\t',
    ensures
        second_field(line) is None,
{
    lemma_index_of(line, '\t', line.len() as int);
}

/// A line that a `\n` ends comes off the front of the text, without the
/// `\n` and without a `\r` just before it.
pub proof fn lemma_lines_newline(line: Seq<char>, rest: Seq<char>)
    requires
        !line.contains('\n'),
    ensures
        text_lines(line + seq!['\n'] + rest) == seq![strip_cr(line)] + text_lines(rest),
{
    let s = line + seq!['\n'] + rest;
    assert forall|j: int| 0 <= j < line.len() implies s[j] != '\n' by {
        assert(s[j] == line[j]);
    }
    lemma_index_of(s, '\n', line.len() as int);
    assert(s.take(line.len() as int) =~= line);
    assert(s.skip(line.len() + 1int) =~= rest);
}

/// A text without `\n` is one line, kept whole, or none when it is empty.
pub proof fn lemma_lines_last(line: Seq<char>)
    requires
        !line.contains('\n'),
    ensures
        text_lines(line) == (if line.len() == 0 { seq![] } else { seq![line] }),
{
    if line.len() > 0 {
        lemma_index_of(line, '\n', line.len() as int);
    }
}

/// The header lines give no prefix; a line after the header adds its
/// second column, if it has one, at the end.
pub proof fn lemma_body_fields_push(lines: Seq<Seq<char>>, line: Seq<char>)
    ensures
        body_fields(lines.push(line)) == (if lines.len() < RISWHOIS_HEADER_LINES {
            seq![]
        } else {
            match second_field(line) {
                Some(f) => body_fields(lines).push(f),
                None => body_fields(lines),
            }
        }),
{
    if lines.len() >= RISWHOIS_HEADER_LINES {
        let body = lines.push(line).skip(RISWHOIS_HEADER_LINES as int);
        assert(body.drop_last() =~= (if lines.len() == RISWHOIS_HEADER_LINES {
            seq![]
        } else {
            lines.skip(RISWHOIS_HEADER_LINES as int)
        }));
        assert(body.last() == line);
        if lines.len() == RISWHOIS_HEADER_LINES {
            assert(second_fields(body.drop_last()) == Seq::<Seq<char>>::empty());
        }
    }
}

/// `String::push`. Trusted: the character is appended.
#[verifier::external_body]
fn push_char(s: &mut String, c: char)
    ensures
        final(s)@ == old(s)@.push(c),
{
    s.push(c);
}

/// The second tab-separated column of a line, if the line has a tab.
fn second_field_of(line: &Vec<char>) -> (r: Option<String>)
    ensures
        r.deep_view() == second_field(line@),
{
    let n = line.len();
    let mut i: usize = 0;
    while i < n && line[i] != '\t'
        invariant
            n == line@.len(),
            i <= n,
            forall|j: int| 0 <= j < i ==> line@[j] != '\t',
        decreases n - i,
    {
        i = i + 1;
    }
    proof {
        lemma_index_of(line@, '\t', i as int);
    }
    if i == n {
        return None;
    }
    let ghost rest = line@.skip(i + 1int);
    let mut field = String::new();
    let mut j: usize = i + 1;
    while j < n && line[j] != '\t'
        invariant
            n == line@.len(),
            i < j <= n,
            rest == line@.skip(i + 1int),
            field@ == line@.subrange(i + 1int, j as int),
            forall|k: int| i < k < j ==> line@[k] != '\t',
        decreases n - j,
    {
        push_char(&mut field, line[j]);
        j = j + 1;
    }
    proof {
        assert forall|k: int| 0 <= k < j - i - 1 implies rest[k] != '\t' by {
            assert(rest[k] == line@[i + 1 + k]);
        }
        lemma_index_of(rest, '\t', j - i - 1);
        assert(field@ =~= rest.take(j - i - 1));
    }
    Some(field)
}

/// The prefixes listed in the text of a RIS whois dump: the second
/// tab-separated column of every line after the header, for the lines that
/// have one, in order.
pub fn prefixes_from_dump_text(text: &str) -> (r: Vec<String>)
    ensures
        r.deep_view() == dump_prefixes(text@),
{
    let mut prefixes: Vec<String> = Vec::new();
    let mut line: Vec<char> = Vec::new();
    let mut lines_seen: usize = 0;
    let ghost mut done: Seq<Seq<char>> = seq![];
    proof {
        broadcast use vstd::string::group_string_axioms;

        assert(line@ + text@.skip(0) =~= text@);
        assert(done + text_lines(text@) =~= text_lines(text@));
    }
    for c in it: text.chars()
        invariant
            it.seq() == text@,
            text_lines(text@) == done + text_lines(line@ + it.seq().skip(it.index())),
            !line@.contains('\n'),
            lines_seen == (if done.len() < RISWHOIS_HEADER_LINES { done.len() } else { RISWHOIS_HEADER_LINES as nat }),
            prefixes.deep_view() == body_fields(done),
    {
        assert(it.seq().skip(it.index()) =~= seq![c] + it.seq().skip(it.index() + 1));
        if c == '\n' {
            proof {
                lemma_lines_newline(line@, it.seq().skip(it.index() + 1));
                assert(line@ + seq![c] + it.seq().skip(it.index() + 1) =~= line@ + it.seq().skip(it.index()));
            }
            let ghost old_line = line@;
            let len = line.len();
            if len > 0 && line[len - 1] == '\r' {
                line.pop();
            }
            assert(line@ == strip_cr(old_line));
            proof {
                lemma_body_fields_push(done, line@);
            }
            if lines_seen >= RISWHOIS_HEADER_LINES {
                if let Some(field) = second_field_of(&line) {
                    prefixes.push(field);
                }
            } else {
                lines_seen = lines_seen + 1;
            }
            proof {
                let rest = it.seq().skip(it.index() + 1);
                assert(done + (seq![line@] + text_lines(rest)) =~= done.push(line@) + text_lines(rest));
                done = done.push(line@);
            }
            line = Vec::new();
            assert(line@ + it.seq().skip(it.index() + 1) =~= it.seq().skip(it.index() + 1));
        } else {
            let ghost before = line@;
            line.push(c);
            assert(line@ + it.seq().skip(it.index() + 1) =~= before + it.seq().skip(it.index()));
            assert(!line@.contains('\n')) by {
                if line@.contains('\n') {
                    let k = choose|k: int| 0 <= k < line@.len() && line@[k] == '\n';
                    if k < before.len() {
                        assert(before[k] == '\n');
                    }
                }
            }
        }
    }
    proof {
        assert(line@ + text@.skip(text@.len() as int) =~= line@);
        lemma_lines_last(line@);
        lemma_body_fields_push(done, line@);
    }
    if line.len() > 0 {
        if lines_seen >= RISWHOIS_HEADER_LINES {
            if let Some(field) = second_field_of(&line) {
                prefixes.push(field);
            }
        }
        proof {
            assert(done + seq![line@] =~= done.push(line@));
            done = done.push(line@);
        }
    } else {
        assert(done + Seq::<Seq<char>>::empty() =~= done);
    }
    prefixes
}

/// Why a dump could not be turned into prefixes or a table.
#[derive(Debug, PartialEq, Eq)]
pub enum DumpError {
    /// The gzip stream could not be read to its end.
    Decompress,
    /// The decompressed dump is not UTF-8.
    InvalidUtf8,
    /// Fetching a dump failed; the message says why.
    Download(String),
}

/// What `flate2::read::GzDecoder` gives when read to the end over `data`
/// (`None` when reading fails).
pub uninterp spec fn spec_gunzip(data: Seq<u8>) -> Option<Seq<u8>>;

/// Decompresses gzip data by reading a `flate2::read::GzDecoder` over it to
/// the end. Trusted: the result is what `spec_gunzip` names.
#[verifier::external_body]
fn gunzip(data: &[u8]) -> (r: Option<Vec<u8>>)
    ensures
        match r {
            Some(v) => spec_gunzip(data@) == Some(v@),
            None => spec_gunzip(data@) is None,
        },
{
    let mut out = Vec::new();
    match GzDecoder::new(data).read_to_end(&mut out) {
        Ok(_) => Some(out),
        Err(_) => None,
    }
}

/// `String::from_utf8`. Trusted: it succeeds exactly on valid UTF-8 and
/// then holds the decoded characters.
#[verifier::external_body]
fn string_from_utf8(bytes: Vec<u8>) -> (r: Option<String>)
    ensures
        r is Some <==> valid_utf8(bytes@),
        r matches Some(s) ==> s@ == decode_utf8(bytes@),
{
    String::from_utf8(bytes).ok()
}

/// Reads the prefixes out of a gzip-compressed RIS whois dump: the second
/// tab-separated column of every line after the header.
pub fn parse_riswhois_file(data: &[u8]) -> (r: Result<Vec<String>, DumpError>)
    ensures
        match spec_gunzip(data@) {
            None => r == Err::<Vec<String>, DumpError>(DumpError::Decompress),
            Some(bytes) => if valid_utf8(bytes) {
                r matches Ok(v) && v.deep_view() == dump_prefixes(decode_utf8(bytes))
            } else {
                r == Err::<Vec<String>, DumpError>(DumpError::InvalidUtf8)
            },
        },
{
    let bytes = match gunzip(data) {
        Some(b) => b,
        None => return Err(DumpError::Decompress),
    };
    let text = match string_from_utf8(bytes) {
        Some(t) => t,
        None => return Err(DumpError::InvalidUtf8),
    };
    Ok(prefixes_from_dump_text(text.as_str()))
}

/// The table that inserting the prefixes one after another gives: each
/// prefix that parses as a network is stored under its key, a later one
/// replacing an earlier one with the same key; the others are skipped.
pub open spec fn entries_from(prefixes: Seq<Seq<char>>) -> Map<BlockKey, IpPrefix>
    decreases prefixes.len(),
{
    if prefixes.len() == 0 {
        Map::empty()
    } else {
        let m = entries_from(prefixes.drop_last());
        match spec_parse_ipnet(prefixes.last()) {
            Some(p) => m.insert(p.key(), p),
            None => m,
        }
    }
}

/// Every prefix that parses as a network is in the table built from a list
/// that holds it: its key is stored.
pub proof fn lemma_entries_from_contains(prefixes: Seq<Seq<char>>, i: int)
    requires
        0 <= i < prefixes.len(),
        spec_parse_ipnet(prefixes[i]) is Some,
    ensures
        entries_from(prefixes).dom().contains(spec_parse_ipnet(prefixes[i])->0.key()),
    decreases prefixes.len(),
{
    if i < prefixes.len() - 1 {
        lemma_entries_from_contains(prefixes.drop_last(), i);
        assert(prefixes.drop_last()[i] == prefixes[i]);
    }
}

/// Every entry of the table is the network parsed from one of the
/// prefixes, filed under its own key.
pub proof fn lemma_entries_from_parsed(prefixes: Seq<Seq<char>>)
    ensures
        forall|k: BlockKey|
            #[trigger] entries_from(prefixes).dom().contains(k) ==> entries_from(prefixes)[k].key() == k
                && exists|i: int|
                0 <= i < prefixes.len() && spec_parse_ipnet(#[trigger] prefixes[i]) == Some(
                    entries_from(prefixes)[k],
                ),
    decreases prefixes.len(),
{
    if prefixes.len() > 0 {
        let init = prefixes.drop_last();
        lemma_entries_from_parsed(init);
        let m = entries_from(prefixes);
        let last = prefixes.len() - 1;
        assert(prefixes.last() == prefixes[last]);
        assert forall|k: BlockKey| #[trigger] m.dom().contains(k) implies m[k].key() == k && exists|i: int|
            0 <= i < prefixes.len() && spec_parse_ipnet(#[trigger] prefixes[i]) == Some(m[k]) by {
            if spec_parse_ipnet(prefixes.last()) matches Some(p) && p.key() == k {
                assert(spec_parse_ipnet(prefixes[last]) == Some(m[k]));
            } else {
                let i = choose|i: int|
                    0 <= i < init.len() && spec_parse_ipnet(#[trigger] init[i]) == Some(
                        entries_from(init)[k],
                    );
                assert(prefixes[i] == init[i]);
            }
        }
    }
}

/// The last prefix with a given key decides that key's entry: the network
/// as parsed from it.
pub proof fn lemma_entries_from_last_wins(prefixes: Seq<Seq<char>>, i: int)
    requires
        0 <= i < prefixes.len(),
        spec_parse_ipnet(prefixes[i]) is Some,
        forall|j: int|
            i < j < prefixes.len() ==> !(#[trigger] spec_parse_ipnet(prefixes[j]) matches Some(p)
                && p.key() == spec_parse_ipnet(prefixes[i])->0.key()),
    ensures
        entries_from(prefixes)[spec_parse_ipnet(prefixes[i])->0.key()] == spec_parse_ipnet(
            prefixes[i],
        )->0,
    decreases prefixes.len(),
{
    if i < prefixes.len() - 1 {
        let init = prefixes.drop_last();
        assert forall|j: int| i < j < init.len() implies !(#[trigger] spec_parse_ipnet(init[j]) matches Some(p)
            && p.key() == spec_parse_ipnet(init[i])->0.key()) by {
            assert(init[j] == prefixes[j]);
        }
        assert(init[i] == prefixes[i]);
        lemma_entries_from_last_wins(init, i);
        let last = prefixes.len() - 1;
        assert(prefixes.last() == prefixes[last]);
    }
}

/// Any two prefixes of the list that parse to networks with the same key
/// parse to the same network (no two texts of one network with different
/// host bits).
pub open spec fn keys_faithful(prefixes: Seq<Seq<char>>) -> bool {
    forall|i: int, j: int|
        0 <= i < prefixes.len() && 0 <= j < prefixes.len() && spec_parse_ipnet(#[trigger] prefixes[i])
            is Some && spec_parse_ipnet(#[trigger] prefixes[j]) is Some && spec_parse_ipnet(
            prefixes[i],
        )->0.key() == spec_parse_ipnet(prefixes[j])->0.key() ==> spec_parse_ipnet(prefixes[i])
            == spec_parse_ipnet(prefixes[j])
}

/// Neither the order of the prefixes nor repeats of them change the table,
/// when no two texts give one network with different host bits: lists with
/// the same elements give the same table, so every lookup agrees.
pub proof fn lemma_entries_from_order_free(xs: Seq<Seq<char>>, ys: Seq<Seq<char>>)
    requires
        forall|x: Seq<char>| xs.contains(x) <==> ys.contains(x),
        keys_faithful(xs),
    ensures
        entries_from(xs) == entries_from(ys),
{
    let m1 = entries_from(xs);
    let m2 = entries_from(ys);
    lemma_entries_from_parsed(xs);
    lemma_entries_from_parsed(ys);
    assert forall|k: BlockKey| m1.dom().contains(k) implies m2.dom().contains(k) && m2[k] == m1[k] by {
        let i = choose|i: int| 0 <= i < xs.len() && spec_parse_ipnet(#[trigger] xs[i]) == Some(m1[k]);
        assert(xs.contains(xs[i]));
        let j = choose|j: int| 0 <= j < ys.len() && ys[j] == xs[i];
        lemma_entries_from_contains(ys, j);
        let j2 = choose|j2: int| 0 <= j2 < ys.len() && spec_parse_ipnet(#[trigger] ys[j2]) == Some(m2[k]);
        assert(ys.contains(ys[j2]));
        let i2 = choose|i2: int| 0 <= i2 < xs.len() && xs[i2] == ys[j2];
        assert(spec_parse_ipnet(xs[i2]) == Some(m2[k]));
    }
    assert forall|k: BlockKey| m2.dom().contains(k) implies m1.dom().contains(k) by {
        let j = choose|j: int| 0 <= j < ys.len() && spec_parse_ipnet(#[trigger] ys[j]) == Some(m2[k]);
        assert(ys.contains(ys[j]));
        let i = choose|i: int| 0 <= i < xs.len() && xs[i] == ys[j];
        lemma_entries_from_contains(xs, i);
    }
    assert(m1 =~= m2);
}

/// Builds the lookup table of the networks that the prefixes parse to;
/// never fails.
pub fn build_trie_from_prefixes(prefixes: Vec<String>) -> (r: Result<LookupTrie, DumpError>)
    ensures
        r matches Ok(t) && t@ == entries_from(prefixes.deep_view()),
{
    let mut table: UnitTrie = trie_new();
    let n = prefixes.len();
    let ghost all = prefixes.deep_view();
    proof {
        assert(all.take(0) =~= Seq::<Seq<char>>::empty());
        assert(trie_entries(table) =~= entries_from(all.take(0)));
    }
    for i in 0..n
        invariant
            n == prefixes.len(),
            all == prefixes.deep_view(),
            trie_entries(table) == entries_from(all.take(i as int)),
            entries_wf(trie_entries(table)),
    {
        let prefix = prefixes[i].as_str();
        assert(all.take(i + 1).drop_last() =~= all.take(i as int));
        assert(all.take(i + 1).last() == prefix@);
        match parse_ipnet(prefix) {
            Some(net) => {
                trie_insert(&mut table, net);
            },
            None => {},
        }
    }
    proof {
        assert(all.take(n as int) =~= all);
    }
    Ok(LookupTrie::new(table))
}

/// Builds one table from the prefixes of the IPv4 and the IPv6 dump, the
/// IPv4 ones first. A failed IPv4 dump gives its error, else a failed IPv6
/// dump gives its error.
pub fn build_ipnet_trie(
    v4: Result<Vec<String>, DumpError>,
    v6: Result<Vec<String>, DumpError>,
) -> (r: Result<LookupTrie, DumpError>)
    ensures
        match (v4, v6) {
            (Ok(a), Ok(b)) => r matches Ok(t) && t@ == entries_from(a.deep_view() + b.deep_view()),
            (Err(e), _) => r matches Err(e2) && e2 == e,
            (Ok(_), Err(e)) => r matches Err(e2) && e2 == e,
        },
{
    match (v4, v6) {
        (Ok(a), Ok(b)) => {
            let mut all = a;
            let mut rest = b;
            all.append(&mut rest);
            assert(all.deep_view() =~= a.deep_view() + b.deep_view());
            build_trie_from_prefixes(all)
        },
        (Err(e), _) => Err(e),
        (_, Err(e)) => Err(e),
    }
}

} // verus!
