//! Signature pattern text: space-separated tokens, each either two hex digits
//! (a literal byte) or `?` (a wildcard that matches any byte), together with
//! the byte-level matching relation used by the signature scanner.

use vstd::prelude::*;
use vstd::string::StringSliceAdditionalSpecFns;

verus! {

/// One element of a parsed pattern: a literal byte or a wildcard.
#[derive(Clone, Copy, PartialEq, Eq, Structural, Debug)]
pub enum PatToken {
    Byte(u8),
    Wild,
}

/// Rejection of malformed pattern text.
#[derive(Clone, Copy, PartialEq, Eq, Structural, Debug)]
pub struct PatternError {}

pub open spec fn is_hex_digit(b: u8) -> bool {
    (48 <= b <= 57) || (65 <= b <= 70) || (97 <= b <= 102)
}

pub open spec fn hex_val(b: u8) -> u8 {
    if 48 <= b <= 57 {
        (b - 48) as u8
    } else if 65 <= b <= 70 {
        (b - 55) as u8
    } else if 97 <= b <= 102 {
        (b - 87) as u8
    } else {
        0
    }
}

/// The tokens denoted by the pattern text `s` (as UTF-8 bytes), or `None`
/// when `s` is not a sequence of one-or-more valid tokens separated by
/// single spaces.  `0x3f` is `?`, `0x20` is the space separator.
pub open spec fn pattern_tokens(s: Seq<u8>) -> Option<Seq<PatToken>>
    decreases s.len(),
{
    if s.len() == 1 && s[0] == 0x3f {
        Some(seq![PatToken::Wild])
    } else if s.len() == 2 && is_hex_digit(s[0]) && is_hex_digit(s[1]) {
        Some(seq![PatToken::Byte((hex_val(s[0]) * 16 + hex_val(s[1])) as u8)])
    } else if s.len() > 2 && s[0] == 0x3f && s[1] == 0x20 {
        match pattern_tokens(s.skip(2)) {
            Some(rest) => Some(seq![PatToken::Wild] + rest),
            None => None,
        }
    } else if s.len() > 3 && is_hex_digit(s[0]) && is_hex_digit(s[1]) && s[2] == 0x20 {
        match pattern_tokens(s.skip(3)) {
            Some(rest) => Some(
                seq![PatToken::Byte((hex_val(s[0]) * 16 + hex_val(s[1])) as u8)] + rest,
            ),
            None => None,
        }
    } else {
        None
    }
}

/// Whether a single token accepts the byte `b`.
pub open spec fn tok_matches(t: PatToken, b: u8) -> bool {
    match t {
        PatToken::Wild => true,
        PatToken::Byte(x) => x == b,
    }
}

/// Whether the pattern matches `data` starting at offset `i`: every token
/// must lie inside `data` and agree with the byte at its position, wildcards
/// agreeing with anything.
pub open spec fn matches_at(data: Seq<u8>, toks: Seq<PatToken>, i: int) -> bool {
    &&& 0 <= i
    &&& i + toks.len() <= data.len()
    &&& forall|j: int| 0 <= j < toks.len() ==> tok_matches(toks[j], data[i + j])
}

fn hex_digit_value(b: u8) -> (r: Option<u8>)
    ensures
        r is Some <==> is_hex_digit(b),
        r is Some ==> r.unwrap() == hex_val(b),
{
    if 48 <= b && b <= 57 {
        Some(b - 48)
    } else if 65 <= b && b <= 70 {
        Some(b - 55)
    } else if 97 <= b && b <= 102 {
        Some(b - 87)
    } else {
        None
    }
}

/// Parses pattern text into tokens; malformed text is rejected before any
/// scan can happen.
pub fn parse_pattern(pattern: &str) -> (r: Result<Vec<PatToken>, PatternError>)
    ensures
        match pattern_tokens(pattern.spec_bytes()) {
            Some(toks) => r is Ok && r.unwrap()@ == toks,
            None => r is Err,
        },
{
    let bytes = pattern.as_bytes();
    parse_pattern_bytes(bytes)
}

fn parse_pattern_bytes(b: &[u8]) -> (r: Result<Vec<PatToken>, PatternError>)
    ensures
        match pattern_tokens(b@) {
            Some(toks) => r is Ok && r.unwrap()@ == toks,
            None => r is Err,
        },
    decreases b@.len(),
{
    let n = b.len();
    if n == 1 && b[0] == 0x3f {
        let mut v: Vec<PatToken> = Vec::new();
        v.push(PatToken::Wild);
        assert(v@ =~= pattern_tokens(b@).unwrap());
        Ok(v)
    } else if n == 2 {
        match (hex_digit_value(b[0]), hex_digit_value(b[1])) {
            (Some(h), Some(l)) => {
                let mut v: Vec<PatToken> = Vec::new();
                v.push(PatToken::Byte(h * 16 + l));
                assert(v@ =~= pattern_tokens(b@).unwrap());
                Ok(v)
            },
            _ => Err(PatternError {}),
        }
    } else if n > 2 && b[0] == 0x3f && b[1] == 0x20 {
        let rest = vstd::slice::slice_subrange(b, 2, n);
        match parse_pattern_bytes(rest) {
            Ok(mut tail) => {
                tail.insert(0, PatToken::Wild);
                assert(tail@ =~= pattern_tokens(b@).unwrap());
                Ok(tail)
            },
            Err(e) => Err(e),
        }
    } else if n > 3 && b[2] == 0x20 {
        match (hex_digit_value(b[0]), hex_digit_value(b[1])) {
            (Some(h), Some(l)) => {
                let rest = vstd::slice::slice_subrange(b, 3, n);
                match parse_pattern_bytes(rest) {
                    Ok(mut tail) => {
                        tail.insert(0, PatToken::Byte(h * 16 + l));
                        assert(tail@ =~= pattern_tokens(b@).unwrap());
                        Ok(tail)
                    },
                    Err(e) => Err(e),
                }
            },
            _ => Err(PatternError {}),
        }
    } else {
        Err(PatternError {})
    }
}

/// The byte a token stands for (wildcards carry no byte; `0` as a filler).
pub open spec fn tok_byte(t: PatToken) -> u8 {
    match t {
        PatToken::Byte(x) => x,
        PatToken::Wild => 0,
    }
}

pub open spec fn no_wildcards(toks: Seq<PatToken>) -> bool {
    forall|j: int| 0 <= j < toks.len() ==> toks[j] is Byte
}

/// The literal byte sequence of a wildcard-free pattern.
pub open spec fn literal_bytes(toks: Seq<PatToken>) -> Seq<u8> {
    Seq::new(toks.len(), |j: int| tok_byte(toks[j]))
}

/// All offsets `>= i` at which the pattern matches `data`, in increasing
/// order.
pub open spec fn match_offsets_from(data: Seq<u8>, toks: Seq<PatToken>, i: nat) -> Seq<usize>
    decreases data.len() - i,
{
    if i >= data.len() {
        Seq::empty()
    } else {
        let rest = match_offsets_from(data, toks, i + 1);
        if matches_at(data, toks, i as int) {
            seq![i as usize] + rest
        } else {
            rest
        }
    }
}

/// All offsets at which the pattern matches `data`, in increasing order.
/// Offsets are drawn from `0 .. data.len()`, so an empty buffer has no
/// match even for an empty pattern.
pub open spec fn match_offsets(data: Seq<u8>, toks: Seq<PatToken>) -> Seq<usize> {
    match_offsets_from(data, toks, 0)
}

/// The first matching offset, if any.
pub open spec fn first_match(data: Seq<u8>, toks: Seq<PatToken>) -> Option<usize> {
    if match_offsets(data, toks).len() > 0 {
        Some(match_offsets(data, toks)[0])
    } else {
        None
    }
}

/// `match_offsets_from` holds exactly the matching offsets in `i..data.len()`,
/// in increasing order.
pub proof fn lemma_match_offsets_from(data: Seq<u8>, toks: Seq<PatToken>, i: nat)
    requires
        data.len() <= usize::MAX,
    ensures
        forall|a: int, b: int|
            0 <= a < b < match_offsets_from(data, toks, i).len() ==> match_offsets_from(
                data,
                toks,
                i,
            )[a] < match_offsets_from(data, toks, i)[b],
        forall|a: int|
            0 <= a < match_offsets_from(data, toks, i).len() ==> i <= match_offsets_from(
                data,
                toks,
                i,
            )[a] < data.len() && matches_at(data, toks, match_offsets_from(data, toks, i)[a] as int),
        forall|k: int|
            i <= k < data.len() && matches_at(data, toks, k) ==> match_offsets_from(
                data,
                toks,
                i,
            ).contains(k as usize),
    decreases data.len() - i,
{
    if i < data.len() {
        lemma_match_offsets_from(data, toks, i + 1);
        let here = match_offsets_from(data, toks, i);
        let rest = match_offsets_from(data, toks, i + 1);
        let hit = matches_at(data, toks, i as int);
        assert forall|a: int|
            0 <= a < here.len() implies i <= here[a] < data.len() && matches_at(
            data,
            toks,
            here[a] as int,
        ) by {
            if hit {
                if a == 0 {
                    assert(here[a] == i as usize);
                } else {
                    assert(here[a] == rest[a - 1]);
                }
            } else {
                assert(here[a] == rest[a]);
            }
        }
        assert forall|a: int, b: int| 0 <= a < b < here.len() implies here[a] < here[b] by {
            if hit {
                if a == 0 {
                    assert(here[a] == i as usize);
                    assert(here[b] == rest[b - 1]);
                    assert(i + 1 <= rest[b - 1]);
                } else {
                    assert(here[a] == rest[a - 1] && here[b] == rest[b - 1]);
                }
            } else {
                assert(here[a] == rest[a] && here[b] == rest[b]);
            }
        }
        assert forall|k: int|
            i <= k < data.len() && matches_at(data, toks, k) implies here.contains(k as usize) by {
            if hit && k == i {
                assert(here[0] == i as usize);
            } else {
                let w = choose|w: int| 0 <= w < rest.len() && rest[w] == k as usize;
                if hit {
                    assert(here[w + 1] == k as usize);
                } else {
                    assert(here[w] == k as usize);
                }
            }
        }
    }
}

fn match_here(data: &[u8], toks: &Vec<PatToken>, i: usize) -> (r: bool)
    requires
        i <= data@.len(),
    ensures
        r == matches_at(data@, toks@, i as int),
{
    let dlen = data.len();
    if toks.len() > dlen - i {
        return false;
    }
    let mut j: usize = 0;
    while j < toks.len()
        invariant
            dlen == data@.len(),
            i + toks@.len() <= data@.len(),
            j <= toks@.len(),
            forall|k: int| 0 <= k < j ==> tok_matches(toks@[k], data@[i + k]),
        decreases toks@.len() - j,
    {
        match toks[j] {
            PatToken::Wild => {},
            PatToken::Byte(x) => {
                if data[i + j] != x {
                    assert(!tok_matches(toks@[j as int], data@[i + j]));
                    return false;
                }
            },
        }
        j += 1;
    }
    true
}

/// Scans `data` for the first offset at which the pattern matches, the
/// "first match only" mode of the signature scan.
pub fn scan_first(data: &[u8], toks: &Vec<PatToken>) -> (r: Option<usize>)
    ensures
        r == first_match(data@, toks@),
{
    let n = data.len();
    let mut i: usize = 0;
    while i < n
        invariant
            n == data@.len(),
            i <= data@.len(),
            forall|k: int| 0 <= k < i ==> !matches_at(data@, toks@, k),
        decreases data@.len() - i,
    {
        if match_here(data, toks, i) {
            proof {
                lemma_match_offsets_from(data@, toks@, 0);
                let offs = match_offsets(data@, toks@);
                assert(offs.contains(i));
                assert(offs.len() > 0);
                if offs[0] != i {
                    assert(matches_at(data@, toks@, offs[0] as int));
                    let w = choose|w: int| 0 <= w < offs.len() && offs[w] == i;
                    assert(offs[0] <= offs[w]);
                }
            }
            return Some(i);
        }
        i += 1;
    }
    proof {
        lemma_match_offsets_from(data@, toks@, 0);
        let offs = match_offsets(data@, toks@);
        if offs.len() > 0 {
            assert(matches_at(data@, toks@, offs[0] as int));
        }
    }
    None
}

/// Scans `data` for every offset at which the pattern matches.
pub fn scan_all(data: &[u8], toks: &Vec<PatToken>) -> (r: Vec<usize>)
    ensures
        r@ == match_offsets(data@, toks@),
{
    let n = data.len();
    let mut r: Vec<usize> = Vec::new();
    let mut i: usize = 0;
    while i < n
        invariant
            n == data@.len(),
            i <= data@.len(),
            r@ + match_offsets_from(data@, toks@, i as nat) == match_offsets(data@, toks@),
        decreases data@.len() - i,
    {
        if match_here(data, toks, i) {
            r.push(i);
        }
        proof {
            if matches_at(data@, toks@, i as int) {
                assert(match_offsets_from(data@, toks@, i as nat) == seq![i as usize]
                    + match_offsets_from(data@, toks@, (i + 1) as nat));
                assert(r@ + match_offsets_from(data@, toks@, (i + 1) as nat) == match_offsets(
                    data@,
                    toks@,
                ));
            }
        }
        i += 1;
    }
    assert(r@ =~= match_offsets(data@, toks@));
    r
}

/// For a wildcard-free pattern, matching at `i` is exactly equality of
/// `data[i .. i + len]` with the pattern's literal bytes.
pub proof fn lemma_literal_match(data: Seq<u8>, toks: Seq<PatToken>, i: int)
    requires
        no_wildcards(toks),
        0 <= i,
        i + toks.len() <= data.len(),
    ensures
        matches_at(data, toks, i) <==> data.subrange(i, i + toks.len() as int) == literal_bytes(
            toks,
        ),
{
    if matches_at(data, toks, i) {
        assert(data.subrange(i, i + toks.len() as int) =~= literal_bytes(toks));
    }
    if data.subrange(i, i + toks.len() as int) == literal_bytes(toks) {
        assert forall|j: int| 0 <= j < toks.len() implies tok_matches(toks[j], data[i + j]) by {
            assert(data.subrange(i, i + toks.len() as int)[j] == literal_bytes(toks)[j]);
        }
    }
}

/// A buffer that holds exactly one occurrence of a wildcard-free pattern
/// yields exactly one match, at that occurrence's offset; a buffer with no
/// occurrence yields no match.
pub proof fn lemma_literal_occurrences(data: Seq<u8>, toks: Seq<PatToken>, occ: Option<usize>)
    requires
        data.len() <= usize::MAX,
        no_wildcards(toks),
        match occ {
            Some(i0) => i0 + toks.len() <= data.len() && i0 < data.len() && data.subrange(
                i0 as int,
                i0 + toks.len() as int,
            ) == literal_bytes(toks) && forall|k: int|
                0 <= k < data.len() && k != i0 && k + toks.len() <= data.len()
                    ==> #[trigger] data.subrange(k, k + toks.len() as int) != literal_bytes(toks),
            None => forall|k: int|
                0 <= k < data.len() && k + toks.len() <= data.len() ==> #[trigger] data.subrange(
                    k,
                    k + toks.len() as int,
                ) != literal_bytes(toks),
        },
    ensures
        match occ {
            Some(i0) => match_offsets(data, toks) == seq![i0],
            None => match_offsets(data, toks) == Seq::<usize>::empty(),
        },
{
    lemma_match_offsets_from(data, toks, 0);
    let offs = match_offsets(data, toks);
    assert forall|a: int| 0 <= a < offs.len() implies offs[a] as int == match occ {
        Some(i0) => i0 as int,
        None => -1,
    } by {
        let k = offs[a] as int;
        assert(matches_at(data, toks, k));
        lemma_literal_match(data, toks, k);
        match occ {
            Some(i0) => {
                if k != i0 {
                    assert(data.subrange(k, k + toks.len() as int) != literal_bytes(toks));
                }
            },
            None => {
                assert(data.subrange(k, k + toks.len() as int) != literal_bytes(toks));
            },
        }
    }
    match occ {
        Some(i0) => {
            assert(matches_at(data, toks, i0 as int)) by {
                lemma_literal_match(data, toks, i0 as int);
            }
            assert(offs.contains(i0));
            assert(offs.len() >= 1);
            if offs.len() >= 2 {
                assert(offs[0] as int == i0 as int);
                assert(offs[1] as int == i0 as int);
                assert(offs[0] < offs[1]);
            }
            assert(offs =~= seq![i0]);
        },
        None => {
            if offs.len() > 0 {
                assert(offs[0] as int == -1);
            }
            assert(offs =~= Seq::<usize>::empty());
        },
    }
}

/// Wildcard positions never influence a match: two buffers that agree at
/// every non-wildcard position of the window are matched alike.
pub proof fn lemma_wildcards_ignored(d1: Seq<u8>, d2: Seq<u8>, toks: Seq<PatToken>, i: int)
    requires
        d1.len() == d2.len(),
        0 <= i,
        i + toks.len() <= d1.len(),
        forall|j: int| 0 <= j < toks.len() && toks[j] is Byte ==> d1[i + j] == d2[i + j],
    ensures
        matches_at(d1, toks, i) == matches_at(d2, toks, i),
{
    if matches_at(d1, toks, i) {
        assert forall|j: int| 0 <= j < toks.len() implies tok_matches(toks[j], d2[i + j]) by {
            assert(tok_matches(toks[j], d1[i + j]));
        }
    }
    if matches_at(d2, toks, i) {
        assert forall|j: int| 0 <= j < toks.len() implies tok_matches(toks[j], d1[i + j]) by {
            assert(tok_matches(toks[j], d2[i + j]));
        }
    }
}

} // verus!
