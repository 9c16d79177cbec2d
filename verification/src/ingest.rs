//! History ingestion: zsh meta-byte unescaping, entry splitting, timestamp
//! stripping, and normalization (drop empty entries, deduplicate, reverse).

use vstd::prelude::*;

verus! {

use vstd::utf8::decode_utf8;
use vstd::utf8::valid_utf8;

/// Which shell wrote the history file; decides the decode, split and
/// metadata-stripping rules.
#[derive(Clone, Copy, PartialEq, Eq, Structural, Debug)]
pub enum ShellKind {
    Bash,
    Zsh,
}

/// Fatal ingestion failure: the history bytes are not valid text once
/// unescaped and split.
#[derive(Clone, Copy, PartialEq, Eq, Structural, Debug)]
pub enum HistoryError {
    InvalidUtf8,
}

/// Marker byte with which zsh escapes the byte that follows it.
pub const ZSH_META: u8 = 0x83;

/// XORs the first element of a byte sequence with 32; the empty sequence is
/// left unchanged.
pub open spec fn xor_first(s: Seq<u8>) -> Seq<u8> {
    if s.len() == 0 {
        s
    } else {
        seq![(s[0] ^ 32) as u8].add(s.drop_first())
    }
}

/// Result of unescaping a zsh-metafied byte sequence: every meta marker is
/// removed and the byte that then follows the removal point is XORed with 32.
pub open spec fn unmetafy_spec(s: Seq<u8>) -> Seq<u8>
    decreases s.len(),
{
    if s.len() == 0 {
        s
    } else if s[0] == ZSH_META {
        xor_first(unmetafy_spec(s.drop_first()))
    } else {
        seq![s[0]].add(unmetafy_spec(s.drop_first()))
    }
}

/// Number of meta markers in a byte sequence.
pub open spec fn count_meta(s: Seq<u8>) -> int
    decreases s.len(),
{
    if s.len() == 0 {
        0
    } else {
        (if s[0] == ZSH_META { 1int } else { 0int }) + count_meta(s.drop_first())
    }
}

/// Unescaping consumes exactly one byte per meta marker: the output length is
/// the input length minus the number of meta markers.
pub proof fn lemma_unmetafy_len(s: Seq<u8>)
    ensures
        0 <= count_meta(s) <= s.len(),
        unmetafy_spec(s).len() == s.len() - count_meta(s),
    decreases s.len(),
{
    if s.len() != 0 {
        lemma_unmetafy_len(s.drop_first());
    }
}

/// Removes each zsh meta marker and XORs the byte following the removal
/// point with 32, scanning back to front so that removals do not disturb the
/// indices still to be visited.
pub fn unmetafy(bytestring: Vec<u8>) -> (r: Vec<u8>)
    ensures
        r@ == unmetafy_spec(bytestring@),
{
    let mut v = bytestring;
    let ghost s = v@;
    let mut index = v.len();
    while index > 0
        invariant
            index <= s.len(),
            v@ == s.take(index as int).add(unmetafy_spec(s.skip(index as int))),
        decreases index,
    {
        index -= 1;
        let ghost i = index as int;
        assert(s.skip(i).drop_first() == s.skip(i + 1));
        assert(v@[i] == s[i]) by {
            assert(s.take(i + 1)[i] == s[i]);
        }
        if v[index] == ZSH_META {
            v.remove(index);
            assert(v@ == s.take(i).add(unmetafy_spec(s.skip(i + 1)))) by {
                assert(s.take(i + 1).remove(i) == s.take(i));
            }
            if index < v.len() {
                let b = v[index];
                v.set(index, b ^ 32);
                assert(v@ == s.take(i).add(xor_first(unmetafy_spec(s.skip(i + 1))))) by {
                    let t = unmetafy_spec(s.skip(i + 1));
                    assert(s.take(i).add(t).update(i, (t[0] ^ 32) as u8) == s.take(i).add(
                        xor_first(t),
                    ));
                }
            } else {
                assert(unmetafy_spec(s.skip(i + 1)).len() == 0);
            }
        } else {
            assert(s.take(i + 1) == s.take(i).push(s[i]));
            assert(s.take(i).push(s[i]).add(unmetafy_spec(s.skip(i + 1))) == s.take(i).add(
                seq![s[i]].add(unmetafy_spec(s.skip(i + 1))),
            ));
        }
    }
    assert(s.skip(0) == s);
    assert(v@ == unmetafy_spec(s));
    v
}

/// Pieces of `s` split on the delimiter `d`, scanning left to right from
/// position `i` (no occurrence of `d` starts before `i`). Every byte of `s`
/// outside the consumed delimiters is kept, so splitting always yields at
/// least one piece.
pub open spec fn split_bytes_from(s: Seq<u8>, d: Seq<u8>, i: int) -> Seq<Seq<u8>>
    decreases s.len(), s.len() - i,
{
    if d.len() == 0 || i < 0 || i + d.len() > s.len() {
        seq![s]
    } else if s.subrange(i, i + d.len()) == d {
        seq![s.take(i)].add(split_bytes_from(s.skip(i + d.len()), d, 0))
    } else {
        split_bytes_from(s, d, i + 1)
    }
}

/// Pieces of `s` split on the delimiter `d`.
pub open spec fn split_bytes(s: Seq<u8>, d: Seq<u8>) -> Seq<Seq<u8>> {
    split_bytes_from(s, d, 0)
}

/// True when the bytes of `d` occur in `b` starting at position `i`.
fn matches_at(b: &Vec<u8>, d: &Vec<u8>, i: usize) -> (r: bool)
    requires
        i + d@.len() <= b@.len(),
    ensures
        r == (b@.subrange(i as int, i + d@.len()) == d@),
{
    let bn: usize = b.len();
    let mut j: usize = 0;
    while j < d.len()
        invariant
            j <= d@.len(),
            bn == b@.len(),
            i + d@.len() <= bn,
            forall|k: int| 0 <= k < j ==> b@[i + k] == d@[k],
        decreases d@.len() - j,
    {
        if b[i + j] != d[j] {
            assert(b@.subrange(i as int, i + d@.len())[j as int] != d@[j as int]);
            return false;
        }
        j += 1;
    }
    assert(b@.subrange(i as int, i + d@.len()) =~= d@);
    true
}

/// Splits a byte sequence into entries on a delimiter, keeping empty pieces.
pub fn split_entries(bytes: &Vec<u8>, delim: &Vec<u8>) -> (r: Vec<Vec<u8>>)
    requires
        delim@.len() >= 1,
    ensures
        r.deep_view() == split_bytes(bytes@, delim@),
{
    let ghost s = bytes@;
    let ghost d = delim@;
    let n = bytes.len();
    let mut r: Vec<Vec<u8>> = Vec::new();
    let mut start: usize = 0;
    let mut i: usize = 0;
    proof {
        assert(s.skip(0) =~= s);
        assert(r.deep_view() =~= Seq::<Seq<u8>>::empty());
        assert(Seq::<Seq<u8>>::empty().add(split_bytes_from(s, d, 0)) =~= split_bytes_from(
            s,
            d,
            0,
        ));
    }
    while n - i >= delim.len()
        invariant
            delim@.len() >= 1,
            s == bytes@,
            d == delim@,
            n == s.len(),
            start <= i <= n,
            split_bytes(s, d) == r.deep_view().add(
                split_bytes_from(s.skip(start as int), d, i - start),
            ),
        decreases n - i,
    {
        let ghost st = start as int;
        let ghost ii = i as int;
        assert(s.skip(st).subrange(ii - st, ii - st + d.len()) =~= s.subrange(ii, ii + d.len()));
        if matches_at(bytes, delim, i) {
            let piece = vstd::slice::slice_to_vec(vstd::slice::slice_subrange(
                bytes.as_slice(),
                start,
                i,
            ));
            assert(piece.deep_view() =~= s.subrange(st, ii));
            assert(s.skip(st).take(ii - st) =~= s.subrange(st, ii));
            assert(s.skip(st).skip(ii - st + d.len()) =~= s.skip(ii + d.len()));
            let ghost rd = r.deep_view();
            let ghost rest = split_bytes_from(s.skip(ii + d.len()), d, 0);
            assert(split_bytes_from(s.skip(st), d, ii - st) == seq![s.subrange(st, ii)].add(rest));
            r.push(piece);
            assert(r.deep_view() =~= rd.push(s.subrange(st, ii)));
            assert(rd.add(seq![s.subrange(st, ii)].add(rest)) =~= rd.push(
                s.subrange(st, ii),
            ).add(rest));
            start = i + delim.len();
            i = start;
        } else {
            i += 1;
        }
    }
    let piece = vstd::slice::slice_to_vec(vstd::slice::slice_subrange(bytes.as_slice(), start, n));
    assert(piece.deep_view() =~= s.skip(start as int)) by {
        assert(s.skip(start as int) =~= s.subrange(start as int, s.len() as int));
    }
    let ghost rd = r.deep_view();
    assert(split_bytes_from(s.skip(start as int), d, i - start) == seq![s.skip(start as int)]);
    r.push(piece);
    assert(r.deep_view() =~= rd.push(s.skip(start as int)));
    assert(rd.add(seq![s.skip(start as int)]) =~= rd.push(s.skip(start as int)));
    r
}

/// ASCII decimal digit.
pub open spec fn is_ts_digit(b: u8) -> bool {
    48 <= b <= 57
}

/// True when `s` begins with zsh's residual metadata prefix: ten digits, a
/// colon, one digit and a semicolon (what is left of a `: <epoch>:<dur>;`
/// metadata line once the entry splitter has consumed the leading `\n: `).
pub open spec fn has_rest_prefix(s: Seq<u8>) -> bool {
    &&& s.len() >= 13
    &&& forall|j: int| 0 <= j < 10 ==> is_ts_digit(s[j])
    &&& s[10] == 58
    &&& is_ts_digit(s[11])
    &&& s[12] == 59
}

/// Drops the residual metadata prefix when it is present.
pub open spec fn strip_rest(s: Seq<u8>) -> Seq<u8> {
    if has_rest_prefix(s) {
        s.skip(13)
    } else {
        s
    }
}

/// True when `s` begins with a full zsh metadata prefix `: <10 digits>:<digit>;`,
/// as the very first entry of a history file does (no delimiter precedes it,
/// so its leading `: ` was never consumed by the splitter).
pub open spec fn has_first_prefix(s: Seq<u8>) -> bool {
    &&& s.len() >= 15
    &&& s[0] == 58
    &&& s[1] == 32
    &&& has_rest_prefix(s.skip(2))
}

/// Drops the full metadata prefix when it is present.
pub open spec fn strip_first(s: Seq<u8>) -> Seq<u8> {
    if has_first_prefix(s) {
        s.skip(15)
    } else {
        s
    }
}

/// Metadata stripping over a whole entry list: the first entry is stripped of
/// a full `: <epoch>:<dur>;` prefix and then, like every other entry, of a
/// residual `<epoch>:<dur>;` prefix.
pub open spec fn remove_timestamps_spec(entries: Seq<Seq<u8>>) -> Seq<Seq<u8>> {
    if entries.len() == 0 {
        entries
    } else {
        seq![strip_rest(strip_first(entries[0]))].add(
            entries.drop_first().map_values(|e: Seq<u8>| strip_rest(e)),
        )
    }
}

/// True when the entry begins with the residual metadata prefix.
fn has_rest_prefix_exec(e: &Vec<u8>, offset: usize) -> (r: bool)
    requires
        offset <= 2,
        offset <= e@.len(),
    ensures
        r == has_rest_prefix(e@.skip(offset as int)),
{
    let ghost t = e@.skip(offset as int);
    assert(t.len() == e@.len() - offset);
    assert(forall|k: int| 0 <= k < t.len() ==> t[k] == e@[offset + k]);
    if e.len() < 13 + offset {
        return false;
    }
    let mut j: usize = 0;
    while j < 10
        invariant
            j <= 10,
            offset <= 2,
            offset + 13 <= e@.len(),
            t == e@.skip(offset as int),
            t.len() == e@.len() - offset,
            forall|k: int| 0 <= k < t.len() ==> t[k] == e@[offset + k],
            forall|k: int| 0 <= k < j ==> is_ts_digit(t[k]),
        decreases 10 - j,
    {
        let b = e[offset + j];
        if b < 48 || b > 57 {
            assert(!is_ts_digit(t[j as int]));
            return false;
        }
        j += 1;
    }
    let colon = e[offset + 10];
    let digit = e[offset + 11];
    let semi = e[offset + 12];
    colon == 58 && digit >= 48 && digit <= 57 && semi == 59
}

/// Drops the first `k` bytes of an entry.
fn drop_prefix(e: &Vec<u8>, k: usize) -> (r: Vec<u8>)
    requires
        k <= e@.len(),
    ensures
        r@ == e@.skip(k as int),
{
    let r = vstd::slice::slice_to_vec(vstd::slice::slice_subrange(e.as_slice(), k, e.len()));
    assert(r@ =~= e@.skip(k as int));
    r
}

/// Strips one entry of the residual metadata prefix, when present.
fn strip_rest_exec(e: &Vec<u8>) -> (r: Vec<u8>)
    ensures
        r@ == strip_rest(e@),
{
    assert(e@.skip(0) =~= e@);
    if has_rest_prefix_exec(e, 0) {
        drop_prefix(e, 13)
    } else {
        e.clone()
    }
}

/// Strips one entry of the full metadata prefix, when present.
fn strip_first_exec(e: &Vec<u8>) -> (r: Vec<u8>)
    ensures
        r@ == strip_first(e@),
{
    if e.len() >= 15 {
        let c0 = e[0];
        let c1 = e[1];
        if c0 == 58 && c1 == 32 && has_rest_prefix_exec(e, 2) {
            return drop_prefix(e, 15);
        }
    }
    e.clone()
}

/// Strips zsh timestamp metadata from every entry: the first entry loses a
/// full `: <epoch>:<dur>;` prefix and then, like every other entry, a
/// residual `<epoch>:<dur>;` prefix.
pub fn remove_timestamps(history: Vec<Vec<u8>>) -> (r: Vec<Vec<u8>>)
    ensures
        r.deep_view() == remove_timestamps_spec(history.deep_view()),
{
    let ghost h = history.deep_view();
    let mut r: Vec<Vec<u8>> = Vec::new();
    if history.len() == 0 {
        assert(r.deep_view() =~= h);
        return r;
    }
    let first = strip_rest_exec(&strip_first_exec(&history[0]));
    proof {
        assert(h[0] =~= history@[0]@);
    }
    r.push(first);
    proof {
        assert(first.deep_view() =~= first@);
        assert(r.deep_view()[0] == first.deep_view());
    }
    let mut i: usize = 1;
    while i < history.len()
        invariant
            1 <= i <= h.len(),
            h == history.deep_view(),
            h.len() == history@.len(),
            r.deep_view().len() == i,
            r.deep_view()[0] == strip_rest(strip_first(h[0])),
            forall|k: int| 1 <= k < i ==> r.deep_view()[k] == strip_rest(h[k]),
        decreases h.len() - i,
    {
        let next = strip_rest_exec(&history[i]);
        proof {
            assert(h[i as int] =~= history@[i as int]@);
        }
        let ghost prev = r.deep_view();
        r.push(next);
        proof {
            assert(next.deep_view() =~= next@);
            assert(r.deep_view() =~= prev.push(next.deep_view()));
        }
        i += 1;
    }
    assert(r.deep_view() =~= remove_timestamps_spec(h));
    r
}

/// Relies on `String::from_utf8`: it returns `Ok` exactly on valid UTF-8
/// input, decoding the bytes to the characters they encode.
#[verifier::external_body]
fn bytes_to_string(bytes: Vec<u8>) -> (r: Option<String>)
    ensures
        r is Some <==> valid_utf8(bytes@),
        r matches Some(s) ==> s@ == decode_utf8(bytes@),
{
    String::from_utf8(bytes).ok()
}

/// Decodes every entry from bytes to text; `None` as soon as one entry is
/// not valid UTF-8 (a corrupt history file is rejected whole).
pub fn decode_entries(entries: Vec<Vec<u8>>) -> (r: Option<Vec<String>>)
    ensures
        r is Some <==> (forall|i: int|
            0 <= i < entries.deep_view().len() ==> valid_utf8(#[trigger] entries.deep_view()[i])),
        r matches Some(v) ==> v.deep_view() == entries.deep_view().map_values(
            |e: Seq<u8>| decode_utf8(e),
        ),
{
    let ghost h = entries.deep_view();
    let mut r: Vec<String> = Vec::new();
    let mut i: usize = 0;
    while i < entries.len()
        invariant
            0 <= i <= h.len(),
            h == entries.deep_view(),
            h.len() == entries@.len(),
            r.deep_view().len() == i,
            forall|k: int| 0 <= k < i ==> valid_utf8(#[trigger] h[k]),
            forall|k: int| 0 <= k < i ==> r.deep_view()[k] == decode_utf8(h[k]),
        decreases h.len() - i,
    {
        proof {
            assert(h[i as int] =~= entries@[i as int]@);
        }
        match bytes_to_string(entries[i].clone()) {
            Some(s) => {
                let ghost prev = r.deep_view();
                r.push(s);
                proof {
                    assert(r.deep_view() =~= prev.push(s@));
                }
            },
            None => {
                assert(!valid_utf8(h[i as int]));
                return None;
            },
        }
        i += 1;
    }
    assert(r.deep_view() =~= h.map_values(|e: Seq<u8>| decode_utf8(e)));
    Some(r)
}

/// Entries with the empty ones removed, order kept.
pub open spec fn remove_empty_spec(es: Seq<Seq<char>>) -> Seq<Seq<char>>
    decreases es.len(),
{
    if es.len() == 0 {
        es
    } else if es.last().len() == 0 {
        remove_empty_spec(es.drop_last())
    } else {
        remove_empty_spec(es.drop_last()).push(es.last())
    }
}

/// Drops entries equal to the empty string, keeping the order of the rest.
pub fn remove_empty(history: Vec<String>) -> (r: Vec<String>)
    ensures
        r.deep_view() == remove_empty_spec(history.deep_view()),
{
    let ghost h = history.deep_view();
    let mut r: Vec<String> = Vec::new();
    let mut i: usize = 0;
    assert(h.take(0) =~= Seq::<Seq<char>>::empty());
    while i < history.len()
        invariant
            0 <= i <= h.len(),
            h == history.deep_view(),
            h.len() == history@.len(),
            r.deep_view() == remove_empty_spec(h.take(i as int)),
        decreases h.len() - i,
    {
        let ghost ii = i as int;
        proof {
            assert(h[ii] =~= history@[ii]@);
            assert(h.take(ii + 1).drop_last() =~= h.take(ii));
            assert(h.take(ii + 1).last() == h[ii]);
        }
        if !history[i].as_str().is_empty() {
            let ghost prev = r.deep_view();
            let s = history[i].clone();
            r.push(s);
            proof {
                assert(r.deep_view() =~= prev.push(s@));
            }
        }
        i += 1;
    }
    assert(h.take(h.len() as int) =~= h);
    r
}

/// Entries with later repeats removed: each entry is kept only at the
/// position of its first occurrence.
pub open spec fn dedup_first(s: Seq<Seq<char>>) -> Seq<Seq<char>>
    decreases s.len(),
{
    if s.len() == 0 {
        s
    } else {
        let prefix = dedup_first(s.drop_last());
        if s.drop_last().contains(s.last()) {
            prefix
        } else {
            prefix.push(s.last())
        }
    }
}

/// Deduplication keeps exactly the values that occur in the input.
pub proof fn lemma_dedup_contains(s: Seq<Seq<char>>, x: Seq<char>)
    ensures
        dedup_first(s).contains(x) == s.contains(x),
    decreases s.len(),
{
    if s.len() != 0 {
        lemma_dedup_contains(s.drop_last(), x);
        let prefix = dedup_first(s.drop_last());
        if s.contains(x) {
            let i = choose|i: int| 0 <= i < s.len() && s[i] == x;
            if i < s.len() - 1 {
                assert(s.drop_last()[i] == x);
                assert(s.drop_last().contains(x));
                assert(dedup_first(s).contains(x)) by {
                    let j = choose|j: int| 0 <= j < prefix.len() && prefix[j] == x;
                    assert(dedup_first(s)[j] == x);
                }
            } else {
                if s.drop_last().contains(s.last()) {
                    let j = choose|j: int| 0 <= j < prefix.len() && prefix[j] == x;
                    assert(dedup_first(s)[j] == x);
                } else {
                    assert(dedup_first(s).last() == x);
                }
            }
        }
        if dedup_first(s).contains(x) {
            let i = choose|i: int| 0 <= i < dedup_first(s).len() && dedup_first(s)[i] == x;
            if i < prefix.len() {
                assert(prefix[i] == x);
                let j = choose|j: int| 0 <= j < s.drop_last().len() && s.drop_last()[j] == x;
                assert(s[j] == x);
            } else {
                assert(x == s.last());
                assert(s[s.len() - 1] == x);
            }
        }
    }
}

/// No value occurs twice.
pub open spec fn distinct_seq(s: Seq<Seq<char>>) -> bool {
    forall|i: int, j: int| 0 <= i < j < s.len() ==> s[i] != s[j]
}

/// Deduplication leaves no value occurring twice.
pub proof fn lemma_dedup_distinct(s: Seq<Seq<char>>)
    ensures
        distinct_seq(dedup_first(s)),
    decreases s.len(),
{
    if s.len() != 0 {
        lemma_dedup_distinct(s.drop_last());
        let prefix = dedup_first(s.drop_last());
        if !s.drop_last().contains(s.last()) {
            lemma_dedup_contains(s.drop_last(), s.last());
            assert(forall|i: int| 0 <= i < prefix.len() ==> prefix[i] != s.last()) by {
                assert(!prefix.contains(s.last()));
            }
        }
    }
}

/// Deduplicating a sequence without repeats changes nothing.
pub proof fn lemma_dedup_identity(s: Seq<Seq<char>>)
    requires
        distinct_seq(s),
    ensures
        dedup_first(s) == s,
    decreases s.len(),
{
    if s.len() != 0 {
        assert(distinct_seq(s.drop_last()));
        lemma_dedup_identity(s.drop_last());
        assert(!s.drop_last().contains(s.last())) by {
            if s.drop_last().contains(s.last()) {
                let i = choose|i: int|
                    0 <= i < s.drop_last().len() && s.drop_last()[i] == s.last();
                assert(s[i] == s[s.len() - 1]);
                assert(false);
            }
        }
        assert(dedup_first(s) =~= s);
    }
}

/// Deduplication is idempotent: deduplicating an already-deduplicated
/// sequence yields the same sequence.
pub proof fn lemma_dedup_idempotent(s: Seq<Seq<char>>)
    ensures
        dedup_first(dedup_first(s)) == dedup_first(s),
{
    lemma_dedup_distinct(s);
    lemma_dedup_identity(dedup_first(s));
}

/// True when the two strings hold the same characters.
fn string_eq(a: &String, b: &String) -> (r: bool)
    ensures
        r == (a@ == b@),
{
    a.eq(b)
}

/// Removes duplicate entries, keeping each entry at the position of its
/// first occurrence.
pub fn remove_duplicates(history: Vec<String>) -> (r: Vec<String>)
    ensures
        r.deep_view() == dedup_first(history.deep_view()),
{
    let ghost h = history.deep_view();
    let mut r: Vec<String> = Vec::new();
    let mut i: usize = 0;
    assert(h.take(0) =~= Seq::<Seq<char>>::empty());
    while i < history.len()
        invariant
            0 <= i <= h.len(),
            h == history.deep_view(),
            h.len() == history@.len(),
            r.deep_view() == dedup_first(h.take(i as int)),
        decreases h.len() - i,
    {
        let ghost ii = i as int;
        proof {
            assert(h[ii] =~= history@[ii]@);
            assert(h.take(ii + 1).drop_last() =~= h.take(ii));
            assert(h.take(ii + 1).last() == h[ii]);
        }
        let mut found = false;
        let mut j: usize = 0;
        while j < r.len()
            invariant
                0 <= j <= r@.len(),
                r.deep_view().len() == r@.len(),
                ii == i as int,
                0 <= ii < history@.len(),
                ii < h.len(),
                h[ii] == history@[ii]@,
                found == (exists|k: int| 0 <= k < j && r.deep_view()[k] == h[ii]),
            decreases r@.len() - j,
        {
            if string_eq(&r[j], &history[i]) {
                assert(r.deep_view()[j as int] == h[ii]);
                found = true;
            }
            j += 1;
        }
        proof {
            assert(found == r.deep_view().contains(h[ii]));
            lemma_dedup_contains(h.take(ii), h[ii]);
        }
        if !found {
            let ghost prev = r.deep_view();
            let s = history[i].clone();
            r.push(s);
            proof {
                assert(r.deep_view() =~= prev.push(s@));
            }
        }
        i += 1;
    }
    assert(h.take(h.len() as int) =~= h);
    r
}

/// Reverses the order of the entries.
pub fn reverse(history: Vec<String>) -> (r: Vec<String>)
    ensures
        r.deep_view() == history.deep_view().reverse(),
{
    let ghost h = history.deep_view();
    let mut v = history;
    let mut r: Vec<String> = Vec::new();
    while v.len() > 0
        invariant
            v@.len() + r@.len() == h.len(),
            v.deep_view() =~= h.take(v@.len() as int),
            r.deep_view().len() == r@.len(),
            forall|k: int| 0 <= k < r@.len() ==> r.deep_view()[k] == h[h.len() - 1 - k],
        decreases v.len(),
    {
        let ghost n = v@.len() as int;
        proof {
            assert(v.deep_view()[n - 1] == h[n - 1]);
            assert(v.deep_view()[n - 1] =~= v@[n - 1]@);
        }
        let x = v.pop().unwrap();
        let ghost prev = r.deep_view();
        r.push(x);
        proof {
            assert(r.deep_view() =~= prev.push(x@));
            assert(v.deep_view() =~= h.take(v@.len() as int));
        }
    }
    assert(r.deep_view() =~= h.reverse());
    r
}

/// The byte-level entries of a history file: bash splits on the newline
/// byte; zsh is first unescaped, then split on `\n: ` and stripped of its
/// timestamp metadata.
pub open spec fn raw_entries(bytes: Seq<u8>, kind: ShellKind) -> Seq<Seq<u8>> {
    match kind {
        ShellKind::Bash => split_bytes(bytes, seq![10u8]),
        ShellKind::Zsh => remove_timestamps_spec(
            split_bytes(unmetafy_spec(bytes), seq![10u8, 58u8, 32u8]),
        ),
    }
}

/// True when every byte-level entry of the history is valid UTF-8.
pub open spec fn history_decodes(bytes: Seq<u8>, kind: ShellKind) -> bool {
    forall|i: int|
        0 <= i < raw_entries(bytes, kind).len() ==> valid_utf8(#[trigger] raw_entries(bytes, kind)[i])
}

/// Shared post-processing: drop empty entries, deduplicate keeping first
/// occurrences, then reverse the whole list.
pub open spec fn normalize_spec(es: Seq<Seq<char>>) -> Seq<Seq<char>> {
    dedup_first(remove_empty_spec(es)).reverse()
}

/// The corpus a history file yields: its byte-level entries, decoded and
/// normalized.
pub open spec fn corpus_spec(bytes: Seq<u8>, kind: ShellKind) -> Seq<Seq<char>> {
    normalize_spec(raw_entries(bytes, kind).map_values(|e: Seq<u8>| decode_utf8(e)))
}

/// Dropping empty entries leaves only non-empty entries.
pub proof fn lemma_remove_empty_nonempty(es: Seq<Seq<char>>)
    ensures
        forall|i: int|
            0 <= i < remove_empty_spec(es).len() ==> #[trigger] remove_empty_spec(es)[i].len() != 0,
    decreases es.len(),
{
    if es.len() != 0 {
        lemma_remove_empty_nonempty(es.drop_last());
        let prefix = remove_empty_spec(es.drop_last());
        assert forall|i: int|
            0 <= i < remove_empty_spec(es).len() implies #[trigger] remove_empty_spec(
            es,
        )[i].len() != 0 by {
            if es.last().len() != 0 && i < prefix.len() {
                assert(remove_empty_spec(es)[i] == prefix[i]);
            }
        }
    }
}

/// The corpus invariant: whatever the decoded entries were, the normalized
/// corpus holds no two equal strings and no empty string.
pub proof fn lemma_corpus_well_formed(es: Seq<Seq<char>>)
    ensures
        distinct_seq(normalize_spec(es)),
        forall|i: int|
            0 <= i < normalize_spec(es).len() ==> #[trigger] normalize_spec(es)[i].len() != 0,
{
    let ne = remove_empty_spec(es);
    let dd = dedup_first(ne);
    let c = normalize_spec(es);
    lemma_remove_empty_nonempty(es);
    lemma_dedup_distinct(ne);
    assert(forall|i: int| 0 <= i < c.len() ==> c[i] == dd[c.len() - 1 - i]);
    assert(forall|i: int| 0 <= i < dd.len() ==> #[trigger] dd[i].len() != 0) by {
        assert forall|i: int| 0 <= i < dd.len() implies #[trigger] dd[i].len() != 0 by {
            assert(dd.contains(dd[i]));
            lemma_dedup_contains(ne, dd[i]);
            let j = choose|j: int| 0 <= j < ne.len() && ne[j] == dd[i];
            assert(ne[j].len() != 0);
        }
    }
    assert forall|i: int, j: int| 0 <= i < j < c.len() implies c[i] != c[j] by {
        assert(c[i] == dd[c.len() - 1 - i]);
        assert(c[j] == dd[c.len() - 1 - j]);
    }
}

/// Decoding is deterministic: any two corpora built from the same bytes and
/// the same shell kind are equal.
pub proof fn lemma_decode_deterministic(
    bytes: Seq<u8>,
    kind: ShellKind,
    c1: Seq<Seq<char>>,
    c2: Seq<Seq<char>>,
)
    requires
        c1 == corpus_spec(bytes, kind),
        c2 == corpus_spec(bytes, kind),
    ensures
        c1 == c2,
{
}

/// Builds the corpus from the raw bytes of a history file: decodes and
/// splits them by the shell's rules, then drops empty entries, deduplicates
/// and reverses. Fails if and only if some entry is not valid UTF-8.
pub fn process_history(history: Vec<u8>, history_type: ShellKind) -> (r: Result<
    Vec<String>,
    HistoryError,
>)
    ensures
        r is Ok <==> history_decodes(history@, history_type),
        r matches Ok(v) ==> v.deep_view() == corpus_spec(history@, history_type),
{
    let ghost hb = history@;
    let raw: Vec<Vec<u8>> = match history_type {
        ShellKind::Bash => {
            let mut delim: Vec<u8> = Vec::new();
            delim.push(10);
            assert(delim@ =~= seq![10u8]);
            split_entries(&history, &delim)
        },
        ShellKind::Zsh => {
            let mut delim: Vec<u8> = Vec::new();
            delim.push(10);
            delim.push(58);
            delim.push(32);
            assert(delim@ =~= seq![10u8, 58u8, 32u8]);
            let unescaped = unmetafy(history);
            remove_timestamps(split_entries(&unescaped, &delim))
        },
    };
    assert(raw.deep_view() == raw_entries(hb, history_type));
    let ghost rd = raw.deep_view();
    let decoded: Vec<String> = match decode_entries(raw) {
        Some(v) => v,
        None => {
            return Err(HistoryError::InvalidUtf8);
        },
    };
    Ok(reverse(remove_duplicates(remove_empty(decoded))))
}

} // verus!
