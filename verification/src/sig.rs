//! Signature matcher and cache: scans memory snapshots for byte patterns
//! and memoizes, per pattern text, the relative offsets found, so repeated
//! lookups are served from the cache instead of re-scanning.

use vstd::prelude::*;
use vstd::string::StringSliceAdditionalSpecFns;
use crate::region::{MappedLib, MappedRegion};
use crate::pattern::{
    first_match, lemma_match_offsets_from, match_offsets, parse_pattern, pattern_tokens, scan_all,
    scan_first, PatToken,
};

verus! {

/// The views of the cache's entries: pattern text and relative offsets.
pub open spec fn entry_views(entries: Seq<(String, Vec<usize>)>) -> Seq<(Seq<char>, Seq<usize>)> {
    Seq::new(entries.len(), |i: int| (entries[i].0@, entries[i].1@))
}

/// The offsets stored under `key`: the first entry with that pattern text.
pub open spec fn cache_lookup(c: Seq<(Seq<char>, Seq<usize>)>, key: Seq<char>) -> Option<
    Seq<usize>,
>
    decreases c.len(),
{
    if c.len() == 0 {
        None
    } else if c[0].0 == key {
        Some(c[0].1)
    } else {
        cache_lookup(c.drop_first(), key)
    }
}

pub proof fn lemma_cache_lookup_at(c: Seq<(Seq<char>, Seq<usize>)>, key: Seq<char>, i: int)
    requires
        0 <= i < c.len(),
        c[i].0 == key,
        forall|k: int| 0 <= k < i ==> (#[trigger] c[k]).0 != key,
    ensures
        cache_lookup(c, key) == Some(c[i].1),
    decreases c.len(),
{
    if i > 0 {
        assert(c[0].0 != key);
        assert(c.drop_first()[i - 1] == c[i]);
        assert forall|k: int| 0 <= k < i - 1 implies (#[trigger] c.drop_first()[k]).0 != key by {
            assert(c.drop_first()[k] == c[k + 1]);
        }
        lemma_cache_lookup_at(c.drop_first(), key, i - 1);
    }
}

pub proof fn lemma_cache_lookup_none(c: Seq<(Seq<char>, Seq<usize>)>, key: Seq<char>)
    requires
        forall|k: int| 0 <= k < c.len() ==> (#[trigger] c[k]).0 != key,
    ensures
        cache_lookup(c, key) is None,
    decreases c.len(),
{
    if c.len() > 0 {
        assert forall|k: int|
            0 <= k < c.drop_first().len() implies (#[trigger] c.drop_first()[k]).0 != key by {
            assert(c.drop_first()[k] == c[k + 1]);
        }
        lemma_cache_lookup_none(c.drop_first(), key);
    }
}

/// A lookup after an append-behind-a-miss finds the appended entry.
pub proof fn lemma_cache_lookup_push(
    c: Seq<(Seq<char>, Seq<usize>)>,
    key: Seq<char>,
    v: Seq<usize>,
)
    requires
        cache_lookup(c, key) is None,
    ensures
        cache_lookup(c.push((key, v)), key) == Some(v),
    decreases c.len(),
{
    if c.len() == 0 {
        assert(c.push((key, v))[0] == (key, v));
    } else {
        assert(c.push((key, v))[0] == c[0]);
        assert(c.push((key, v)).drop_first() =~= c.drop_first().push((key, v)));
        lemma_cache_lookup_push(c.drop_first(), key, v);
    }
}

/// A saturating step of the scan counter.
pub open spec fn sat_inc(n: usize) -> usize {
    if n < usize::MAX {
        (n + 1) as usize
    } else {
        n
    }
}

/// An absolute address from a module base and a cached relative offset,
/// with the machine's wrapping addition.
pub open spec fn abs_addr(base: usize, off: usize) -> usize {
    vstd::wrapping::usize_specs::wrapping_add(base, off)
}

pub open spec fn absolute_addrs(base: usize, offs: Seq<usize>) -> Seq<usize> {
    Seq::new(offs.len(), |i: int| abs_addr(base, offs[i]))
}

/// The relative offsets one scan of `data` records for the pattern.
pub open spec fn relative_offsets(data: Seq<u8>, toks: Seq<PatToken>, once: bool) -> Seq<usize> {
    if once {
        match first_match(data, toks) {
            Some(i) => seq![i],
            None => Seq::empty(),
        }
    } else {
        match_offsets(data, toks)
    }
}

/// The process-wide signature cache: pattern text mapped to the relative
/// offsets found the last time that pattern was searched, plus a counter of
/// how many raw scans have been performed (test instrumentation).
pub struct SignatureCache {
    entries: Vec<(String, Vec<usize>)>,
    scans: usize,
}

impl View for SignatureCache {
    type V = Seq<(Seq<char>, Seq<usize>)>;

    closed spec fn view(&self) -> Seq<(Seq<char>, Seq<usize>)> {
        entry_views(self.entries@)
    }
}

impl SignatureCache {
    pub closed spec fn scan_count(&self) -> usize {
        self.scans
    }

    pub fn new() -> (r: SignatureCache)
        ensures
            r@ == Seq::<(Seq<char>, Seq<usize>)>::empty(),
            r.scan_count() == 0,
    {
        let r = SignatureCache { entries: Vec::new(), scans: 0 };
        proof {
            assert(r@ =~= Seq::<(Seq<char>, Seq<usize>)>::empty());
        }
        r
    }

    /// The number of raw scans performed so far.
    pub fn scans_performed(&self) -> (r: usize)
        ensures
            r == self.scan_count(),
    {
        self.scans
    }

    /// Appends the handed-in entries behind the present ones, in order.
    pub fn add_signatures(&mut self, signatures: Vec<(String, Vec<usize>)>)
        ensures
            final(self)@ == old(self)@ + entry_views(signatures@),
            final(self).scan_count() == old(self).scan_count(),
    {
        let ghost sig0 = signatures@;
        let mut rest = signatures;
        proof {
            assert(self@ + entry_views(rest@).take(0) =~= self@);
        }
        let ghost done: int = 0;
        loop
            invariant
                0 <= done <= sig0.len(),
                rest@ =~= sig0.skip(done),
                self.scans == old(self).scans,
                self@ == old(self)@ + entry_views(sig0).take(done),
            ensures
                self@ == old(self)@ + entry_views(sig0),
                self.scans == old(self).scans,
            decreases sig0.len() - done,
        {
            if rest.len() == 0 {
                proof {
                    assert(done == sig0.len());
                    assert(entry_views(sig0).take(done) =~= entry_views(sig0));
                }
                break;
            }
            let ghost pre = self.entries@;
            let e = rest.remove(0);
            self.entries.push(e);
            proof {
                assert(entry_views(self.entries@) =~= entry_views(pre).push((e.0@, e.1@)));
                assert(entry_views(pre).push((e.0@, e.1@)) =~= entry_views(pre) + seq![
                    (e.0@, e.1@),
                ]);
                assert(sig0.skip(done)[0] == e);
                assert(entry_views(sig0)[done] == (e.0@, e.1@));
                assert(entry_views(sig0).take(done + 1) =~= entry_views(sig0).take(done) + seq![
                    (e.0@, e.1@),
                ]);
                assert(old(self)@ + entry_views(sig0).take(done + 1) =~= (old(self)@ + entry_views(
                    sig0,
                ).take(done)) + seq![(e.0@, e.1@)]);
                assert(rest@ =~= sig0.skip(done + 1));
            }
            proof {
                done = done + 1;
            }
        }
    }

    /// A copy of every cached entry, in cache order.
    pub fn get_signatures(&self) -> (r: Vec<(String, Vec<usize>)>)
        ensures
            entry_views(r@) == self@,
    {
        let mut r: Vec<(String, Vec<usize>)> = Vec::new();
        let n = self.entries.len();
        let mut i: usize = 0;
        while i < n
            invariant
                n == self.entries@.len(),
                i <= n,
                r@.len() == i,
                forall|k: int|
                    0 <= k < i ==> (#[trigger] r@[k]).0@ == self.entries@[k].0@ && r@[k].1@
                        == self.entries@[k].1@,
            decreases n - i,
        {
            let text = self.entries[i].0.clone();
            let offs = copy_usizes(&self.entries[i].1);
            r.push((text, offs));
            i += 1;
        }
        proof {
            assert(entry_views(r@) =~= self@);
        }
        r
    }
}

fn copy_usizes(src: &Vec<usize>) -> (r: Vec<usize>)
    ensures
        r@ == src@,
{
    let n = src.len();
    let mut r: Vec<usize> = Vec::new();
    let mut i: usize = 0;
    while i < n
        invariant
            n == src@.len(),
            i <= n,
            r@ == src@.take(i as int),
        decreases n - i,
    {
        r.push(src[i]);
        proof {
            assert(src@.take(i + 1) =~= src@.take(i as int).push(src@[i as int]));
        }
        i += 1;
    }
    proof {
        assert(src@.take(n as int) =~= src@);
    }
    r
}

fn bytes_eq(a: &[u8], b: &[u8]) -> (r: bool)
    ensures
        r == (a@ == b@),
{
    let n = a.len();
    if b.len() != n {
        return false;
    }
    let mut i: usize = 0;
    while i < n
        invariant
            n == a@.len(),
            n == b@.len(),
            i <= n,
            forall|k: int| 0 <= k < i ==> a@[k] == b@[k],
        decreases n - i,
    {
        if a[i] != b[i] {
            return false;
        }
        i += 1;
    }
    proof {
        assert(a@ =~= b@);
    }
    true
}

/// Text equality of two strings, decided through their UTF-8 bytes.
fn str_eq(a: &str, b: &str) -> (r: bool)
    ensures
        r == (a@ == b@),
{
    let r = bytes_eq(a.as_bytes(), b.as_bytes());
    proof {
        vstd::utf8::encode_utf8_decode_utf8(a@);
        vstd::utf8::encode_utf8_decode_utf8(b@);
    }
    r
}

fn find_entry(entries: &Vec<(String, Vec<usize>)>, pattern: &str) -> (r: Option<usize>)
    ensures
        match r {
            Some(i) => i < entries@.len() && entries@[i as int].0@ == pattern@ && cache_lookup(
                entry_views(entries@),
                pattern@,
            ) == Some(entries@[i as int].1@),
            None => cache_lookup(entry_views(entries@), pattern@) is None,
        },
{
    let n = entries.len();
    let mut i: usize = 0;
    while i < n
        invariant
            n == entries@.len(),
            i <= n,
            forall|k: int| 0 <= k < i ==> (#[trigger] entry_views(entries@)[k]).0 != pattern@,
        decreases n - i,
    {
        if str_eq(entries[i].0.as_str(), pattern) {
            proof {
                assert(entry_views(entries@)[i as int].0 == pattern@);
                lemma_cache_lookup_at(entry_views(entries@), pattern@, i as int);
            }
            return Some(i);
        }
        proof {
            assert(entry_views(entries@)[i as int].0 == entries@[i as int].0@);
        }
        i += 1;
    }
    proof {
        lemma_cache_lookup_none(entry_views(entries@), pattern@);
    }
    None
}


/// The result of one `find_signatures` call on the given cache state.
pub open spec fn sig_find_result(
    c: Seq<(Seq<char>, Seq<usize>)>,
    base: usize,
    data: Seq<u8>,
    key: Seq<char>,
    pbytes: Seq<u8>,
    once: bool,
) -> Seq<usize> {
    match cache_lookup(c, key) {
        Some(offs) => absolute_addrs(base, offs),
        None => absolute_addrs(base, relative_offsets(data, pattern_tokens(pbytes).unwrap(), once)),
    }
}

/// The cache after one `find_signatures` call: unchanged on a hit, the scan
/// outcome appended on a miss (an empty outcome too, so failed lookups are
/// not retried).
pub open spec fn sig_find_cache(
    c: Seq<(Seq<char>, Seq<usize>)>,
    data: Seq<u8>,
    key: Seq<char>,
    pbytes: Seq<u8>,
    once: bool,
) -> Seq<(Seq<char>, Seq<usize>)> {
    match cache_lookup(c, key) {
        Some(_) => c,
        None => c.push((key, relative_offsets(data, pattern_tokens(pbytes).unwrap(), once))),
    }
}

impl SignatureCache {
    /// Searches one memory snapshot for a pattern.  The cache is consulted
    /// first: on a hit the cached relative offsets are returned rebased onto
    /// `module_base` with no memory access; on a miss the snapshot is
    /// scanned (all matches, or only the first when `once` is set) and the
    /// outcome is cached under the pattern text.  A pattern that is neither
    /// cached nor well-formed is a caller error, excluded by precondition.
    pub fn find_signatures(
        &mut self,
        module_base: usize,
        data: &[u8],
        pattern: &str,
        once: bool,
    ) -> (r: Vec<usize>)
        requires
            module_base + data@.len() <= usize::MAX,
            cache_lookup(old(self)@, pattern@) is Some || pattern_tokens(
                pattern.spec_bytes(),
            ) is Some,
        ensures
            r@ == sig_find_result(
                old(self)@,
                module_base,
                data@,
                pattern@,
                pattern.spec_bytes(),
                once,
            ),
            final(self)@ == sig_find_cache(
                old(self)@,
                data@,
                pattern@,
                pattern.spec_bytes(),
                once,
            ),
            final(self).scan_count() == if cache_lookup(old(self)@, pattern@) is Some {
                old(self).scan_count()
            } else {
                sat_inc(old(self).scan_count())
            },
    {
        if let Some(i) = find_entry(&self.entries, pattern) {
            let offs = &self.entries[i].1;
            let ghost offsv = offs@;
            let m = offs.len();
            let mut out: Vec<usize> = Vec::new();
            let mut k: usize = 0;
            while k < m
                invariant
                    m == offsv.len(),
                    k <= m,
                    offs@ == offsv,
                    out@ == absolute_addrs(module_base, offsv).take(k as int),
                decreases m - k,
            {
                out.push(module_base.wrapping_add(offs[k]));
                proof {
                    assert(absolute_addrs(module_base, offsv).take(k + 1) =~= absolute_addrs(
                        module_base,
                        offsv,
                    ).take(k as int).push(abs_addr(module_base, offsv[k as int])));
                }
                k += 1;
            }
            proof {
                assert(absolute_addrs(module_base, offsv).take(m as int) =~= absolute_addrs(
                    module_base,
                    offsv,
                ));
            }
            return out;
        }
        let toks = match parse_pattern(pattern) {
            Ok(t) => t,
            Err(_) => {
                proof {
                    assert(false);
                }
                return Vec::new();
            },
        };
        self.scans = if self.scans < usize::MAX {
            self.scans + 1
        } else {
            self.scans
        };
        let ghost pre = self@;
        proof {
            lemma_match_offsets_from(data@, toks@, 0);
        }
        if once {
            match scan_first(data, &toks) {
                Some(i) => {
                    let mut stored: Vec<usize> = Vec::new();
                    stored.push(i);
                    let ghost storedv = stored@;
                    let mut out: Vec<usize> = Vec::new();
                    out.push(module_base + i);
                    self.entries.push((pattern.to_owned(), stored));
                    proof {
                        assert(storedv =~= relative_offsets(data@, toks@, true));
                        assert(self@ =~= pre.push((pattern@, storedv)));
                        assert(out@ =~= absolute_addrs(module_base, storedv));
                    }
                    out
                },
                None => {
                    let stored: Vec<usize> = Vec::new();
                    let ghost storedv = stored@;
                    self.entries.push((pattern.to_owned(), stored));
                    proof {
                        assert(storedv =~= relative_offsets(data@, toks@, true));
                        assert(self@ =~= pre.push((pattern@, storedv)));
                        assert(Seq::<usize>::empty() =~= absolute_addrs(module_base, storedv));
                    }
                    Vec::new()
                },
            }
        } else {
            let offs = scan_all(data, &toks);
            let ghost offsv = offs@;
            let m = offs.len();
            let mut out: Vec<usize> = Vec::new();
            let mut k: usize = 0;
            while k < m
                invariant
                    m == offsv.len(),
                    k <= m,
                    offs@ == offsv,
                    offsv == match_offsets(data@, toks@),
                    module_base + data@.len() <= usize::MAX,
                    forall|j: int| 0 <= j < offsv.len() ==> offsv[j] < data@.len(),
                    out@ == absolute_addrs(module_base, offsv).take(k as int),
                decreases m - k,
            {
                out.push(module_base + offs[k]);
                proof {
                    assert(abs_addr(module_base, offsv[k as int]) == module_base + offsv[k as int]);
                    assert(absolute_addrs(module_base, offsv).take(k + 1) =~= absolute_addrs(
                        module_base,
                        offsv,
                    ).take(k as int).push(abs_addr(module_base, offsv[k as int])));
                }
                k += 1;
            }
            self.entries.push((pattern.to_owned(), offs));
            proof {
                assert(offsv =~= relative_offsets(data@, toks@, false));
                assert(self@ =~= pre.push((pattern@, offsv)));
                assert(absolute_addrs(module_base, offsv).take(m as int) =~= absolute_addrs(
                    module_base,
                    offsv,
                ));
            }
            out
        }
    }
}



/// A region worth scanning: readable, executable, non-empty.
pub open spec fn is_candidate(r: MappedRegion) -> bool {
    r.perms.read && r.perms.execute && r.start < r.end
}

/// The first scannable region, in map order.
pub open spec fn first_candidate(regions: Seq<MappedRegion>) -> Option<int>
    decreases regions.len(),
{
    if regions.len() == 0 {
        None
    } else if is_candidate(regions[0]) {
        Some(0)
    } else {
        match first_candidate(regions.drop_first()) {
            Some(i) => Some(i + 1),
            None => None,
        }
    }
}

pub proof fn lemma_first_candidate_at(regions: Seq<MappedRegion>, i: int)
    requires
        0 <= i < regions.len(),
        is_candidate(regions[i]),
        forall|k: int| 0 <= k < i ==> !is_candidate(#[trigger] regions[k]),
    ensures
        first_candidate(regions) == Some(i),
    decreases regions.len(),
{
    if i > 0 {
        assert(regions.drop_first()[i - 1] == regions[i]);
        assert forall|k: int|
            0 <= k < i - 1 implies !is_candidate(#[trigger] regions.drop_first()[k]) by {
            assert(regions.drop_first()[k] == regions[k + 1]);
        }
        lemma_first_candidate_at(regions.drop_first(), i - 1);
    }
}

pub proof fn lemma_first_candidate_none(regions: Seq<MappedRegion>)
    requires
        forall|k: int| 0 <= k < regions.len() ==> !is_candidate(#[trigger] regions[k]),
    ensures
        first_candidate(regions) is None,
    decreases regions.len(),
{
    if regions.len() > 0 {
        assert forall|k: int|
            0 <= k < regions.drop_first().len() implies !is_candidate(
            #[trigger] regions.drop_first()[k],
        ) by {
            assert(regions.drop_first()[k] == regions[k + 1]);
        }
        lemma_first_candidate_none(regions.drop_first());
    }
}

pub open spec fn snap_views(snaps: Seq<Vec<u8>>) -> Seq<Seq<u8>> {
    Seq::new(snaps.len(), |i: int| snaps[i]@)
}

/// The address `find_signature_executable` resolves, as a function of the
/// cache and region state: the first scannable region decides.  A cached
/// outcome, even an empty one, is never re-scanned.
pub open spec fn exec_find_result(
    c: Seq<(Seq<char>, Seq<usize>)>,
    regions: Seq<MappedRegion>,
    snaps: Seq<Seq<u8>>,
    key: Seq<char>,
    pbytes: Seq<u8>,
) -> Option<usize> {
    match first_candidate(regions) {
        None => None,
        Some(ri) => {
            let base = regions[ri].start;
            match cache_lookup(c, key) {
                Some(offs) => if offs.len() > 0 {
                    Some(abs_addr(base, offs[0]))
                } else {
                    None
                },
                None => match first_match(snaps[ri], pattern_tokens(pbytes).unwrap()) {
                    Some(i) => Some((base + i) as usize),
                    None => None,
                },
            }
        },
    }
}

/// The cache after `find_signature_executable`: on a miss, the first
/// scannable region's "first match only" outcome is recorded.
pub open spec fn exec_find_cache(
    c: Seq<(Seq<char>, Seq<usize>)>,
    regions: Seq<MappedRegion>,
    snaps: Seq<Seq<u8>>,
    key: Seq<char>,
    pbytes: Seq<u8>,
) -> Seq<(Seq<char>, Seq<usize>)> {
    match first_candidate(regions) {
        None => c,
        Some(ri) => match cache_lookup(c, key) {
            Some(_) => c,
            None => c.push(
                (key, relative_offsets(snaps[ri], pattern_tokens(pbytes).unwrap(), true)),
            ),
        },
    }
}

/// How many raw scans `find_signature_executable` performs: one on a cache
/// miss with a scannable region, none otherwise.
pub open spec fn exec_find_scans(
    c: Seq<(Seq<char>, Seq<usize>)>,
    regions: Seq<MappedRegion>,
    key: Seq<char>,
) -> nat {
    match first_candidate(regions) {
        None => 0,
        Some(_) => if cache_lookup(c, key) is Some {
            0
        } else {
            1
        },
    }
}

/// The snapshot of every scannable region covers that region exactly.
pub open spec fn snaps_cover(regions: Seq<MappedRegion>, snaps: Seq<Seq<u8>>) -> bool {
    &&& snaps.len() == regions.len()
    &&& forall|i: int|
        0 <= i < regions.len() && is_candidate(#[trigger] regions[i]) ==> snaps[i].len()
            == regions[i].end - regions[i].start
}

pub proof fn lemma_first_candidate_props(regions: Seq<MappedRegion>)
    ensures
        match first_candidate(regions) {
            Some(ri) => 0 <= ri < regions.len() && is_candidate(regions[ri]),
            None => true,
        },
    decreases regions.len(),
{
    if regions.len() > 0 && !is_candidate(regions[0]) {
        lemma_first_candidate_props(regions.drop_first());
        match first_candidate(regions.drop_first()) {
            Some(i) => {
                assert(regions.drop_first()[i] == regions[i + 1]);
            },
            None => {},
        }
    }
}

impl SignatureCache {
    /// Resolves a pattern to an absolute address inside the module's
    /// readable-and-executable regions, scanning region snapshots in map
    /// order in "first match only" mode; `snapshots[i]` holds the bytes of
    /// `lib.regions[i]`.  Only the first such region is ever scanned: its
    /// outcome, even an empty one, is cached and every later region is
    /// answered from the cache.
    pub fn find_signature_executable(
        &mut self,
        lib: &MappedLib,
        snapshots: &Vec<Vec<u8>>,
        pattern: &str,
    ) -> (r: Option<usize>)
        requires
            lib.wf(),
            snaps_cover(lib.regions@, snap_views(snapshots@)),
            cache_lookup(old(self)@, pattern@) is Some || pattern_tokens(
                pattern.spec_bytes(),
            ) is Some,
        ensures
            r == exec_find_result(
                old(self)@,
                lib.regions@,
                snap_views(snapshots@),
                pattern@,
                pattern.spec_bytes(),
            ),
            final(self)@ == exec_find_cache(
                old(self)@,
                lib.regions@,
                snap_views(snapshots@),
                pattern@,
                pattern.spec_bytes(),
            ),
            final(self).scan_count() == if exec_find_scans(old(self)@, lib.regions@, pattern@)
                == 0 {
                old(self).scan_count()
            } else {
                sat_inc(old(self).scan_count())
            },
    {
        let ghost regions = lib.regions@;
        let ghost snaps = snap_views(snapshots@);
        let ghost key = pattern@;
        let ghost pbytes = pattern.spec_bytes();
        let n = lib.regions.len();
        let mut i: usize = 0;
        let ghost mut found: Option<int> = None;
        while i < n
            invariant
                n == regions.len(),
                regions == lib.regions@,
                snaps == snap_views(snapshots@),
                key == pattern@,
                pbytes == pattern.spec_bytes(),
                i <= n,
                lib.wf(),
                snaps_cover(regions, snaps),
                cache_lookup(old(self)@, key) is Some || pattern_tokens(pbytes) is Some,
                match found {
                    None => (forall|k: int| 0 <= k < i ==> !is_candidate(#[trigger] regions[k]))
                        && self@ == old(self)@ && self.scan_count() == old(self).scan_count(),
                    Some(ri) => {
                        &&& 0 <= ri < i
                        &&& is_candidate(regions[ri])
                        &&& forall|k: int| 0 <= k < ri ==> !is_candidate(#[trigger] regions[k])
                        &&& match cache_lookup(old(self)@, key) {
                            Some(offs) => offs.len() == 0 && self@ == old(self)@
                                && self.scan_count() == old(self).scan_count(),
                            None => first_match(snaps[ri], pattern_tokens(pbytes).unwrap()) is None
                                && self@ == old(self)@.push((key, Seq::<usize>::empty()))
                                && self.scan_count() == sat_inc(old(self).scan_count()),
                        }
                        &&& cache_lookup(self@, key) == Some(Seq::<usize>::empty())
                    },
                },
            decreases n - i,
        {
            let candidate = lib.regions[i].perms.read && lib.regions[i].perms.execute
                && lib.regions[i].end - lib.regions[i].start > 0;
            proof {
                assert(candidate == is_candidate(regions[i as int]));
            }
            if candidate {
                let base = lib.regions[i].start;
                let ghost c_entry = self@;
                let ghost scans_entry = self.scan_count();
                let results = self.find_signatures(
                    base,
                    snapshots[i].as_slice(),
                    pattern,
                    true,
                );
                proof {
                    assert(snaps[i as int] == snapshots@[i as int]@);
                }
                if results.len() > 0 {
                    let addr = results[0];
                    proof {
                        match found {
                            None => {
                                lemma_first_candidate_at(regions, i as int);
                                match cache_lookup(old(self)@, key) {
                                    Some(offs) => {
                                        assert(results@ == absolute_addrs(base, offs));
                                        assert(offs.len() > 0);
                                        assert(addr == abs_addr(base, offs[0]));
                                    },
                                    None => {
                                        let toks = pattern_tokens(pbytes).unwrap();
                                        let rel = relative_offsets(snaps[i as int], toks, true);
                                        assert(results@ == absolute_addrs(base, rel));
                                        assert(rel.len() > 0);
                                        let fm = first_match(snaps[i as int], toks).unwrap();
                                        assert(rel == seq![fm]);
                                        lemma_match_offsets_from(snaps[i as int], toks, 0);
                                        assert(fm < snaps[i as int].len());
                                        assert(base + snaps[i as int].len() <= usize::MAX);
                                        assert(addr == abs_addr(base, fm));
                                        assert(abs_addr(base, fm) == (base + fm) as usize);
                                    },
                                }
                            },
                            Some(_) => {
                                assert(results@ == absolute_addrs(
                                    base,
                                    Seq::<usize>::empty(),
                                ));
                                assert(absolute_addrs(base, Seq::<usize>::empty()).len() == 0);
                                assert(false);
                            },
                        }
                    }
                    return Some(addr);
                }
                proof {
                    match found {
                        None => {
                            found = Some(i as int);
                            match cache_lookup(c_entry, key) {
                                Some(offs) => {
                                    assert(results@ == absolute_addrs(base, offs));
                                    assert(offs.len() == 0);
                                    assert(offs =~= Seq::<usize>::empty());
                                    assert(cache_lookup(self@, key) == Some(offs));
                                },
                                None => {
                                    let toks = pattern_tokens(pbytes).unwrap();
                                    let rel = relative_offsets(snaps[i as int], toks, true);
                                    assert(results@ == absolute_addrs(base, rel));
                                    assert(rel.len() == 0);
                                    assert(first_match(snaps[i as int], toks) is None);
                                    assert(rel =~= Seq::<usize>::empty());
                                    lemma_cache_lookup_push(c_entry, key, rel);
                                    assert(cache_lookup(self@, key) == Some(
                                        Seq::<usize>::empty(),
                                    ));
                                },
                            }
                        },
                        Some(_) => {
                            assert(cache_lookup(c_entry, key) == Some(Seq::<usize>::empty()));
                            assert(self@ == c_entry);
                            assert(self.scan_count() == scans_entry);
                        },
                    }
                }
            }
            i += 1;
        }
        proof {
            match found {
                None => {
                    lemma_first_candidate_none(regions);
                },
                Some(ri) => {
                    lemma_first_candidate_at(regions, ri);
                    match cache_lookup(old(self)@, key) {
                        Some(offs) => {},
                        None => {
                            let toks = pattern_tokens(pbytes).unwrap();
                            let rel = relative_offsets(snaps[ri], toks, true);
                            assert(rel =~= Seq::<usize>::empty());
                        },
                    }
                },
            }
        }
        None
    }
}


/// The architecture the process runs on; a dual-pattern call site resolves
/// whichever pattern belongs to it.
#[derive(Clone, Copy, PartialEq, Eq, Structural, Debug)]
pub enum Arch {
    Aarch64,
    Arm,
}

/// A found address displaced by a signed byte offset, with the machine's
/// wrapping arithmetic.
pub open spec fn displaced(addr: usize, off: isize) -> usize {
    vstd::wrapping::usize_specs::wrapping_add_signed(addr, off)
}

impl SignatureCache {
    /// Resolves one of two (pattern, signed offset) pairs, picked by the
    /// running architecture, and applies the picked offset to the found
    /// address.
    pub fn find_signature(
        &mut self,
        lib: &MappedLib,
        snapshots: &Vec<Vec<u8>>,
        arch: Arch,
        arm64_pattern: &str,
        arm64_offset: isize,
        arm32_pattern: &str,
        arm32_offset: isize,
    ) -> (r: Option<usize>)
        requires
            lib.wf(),
            snaps_cover(lib.regions@, snap_views(snapshots@)),
            match arch {
                Arch::Aarch64 => cache_lookup(old(self)@, arm64_pattern@) is Some
                    || pattern_tokens(arm64_pattern.spec_bytes()) is Some,
                Arch::Arm => cache_lookup(old(self)@, arm32_pattern@) is Some || pattern_tokens(
                    arm32_pattern.spec_bytes(),
                ) is Some,
            },
        ensures
            ({
                let (key, pbytes, off) = match arch {
                    Arch::Aarch64 => (arm64_pattern@, arm64_pattern.spec_bytes(), arm64_offset),
                    Arch::Arm => (arm32_pattern@, arm32_pattern.spec_bytes(), arm32_offset),
                };
                &&& r == match exec_find_result(
                    old(self)@,
                    lib.regions@,
                    snap_views(snapshots@),
                    key,
                    pbytes,
                ) {
                    Some(a) => Some(displaced(a, off)),
                    None => None::<usize>,
                }
                &&& final(self)@ == exec_find_cache(
                    old(self)@,
                    lib.regions@,
                    snap_views(snapshots@),
                    key,
                    pbytes,
                )
                &&& final(self).scan_count() == if exec_find_scans(old(self)@, lib.regions@, key)
                    == 0 {
                    old(self).scan_count()
                } else {
                    sat_inc(old(self).scan_count())
                }
            }),
    {
        match arch {
            Arch::Aarch64 => {
                match self.find_signature_executable(lib, snapshots, arm64_pattern) {
                    Some(a) => Some(a.wrapping_add_signed(arm64_offset)),
                    None => None,
                }
            },
            Arch::Arm => {
                match self.find_signature_executable(lib, snapshots, arm32_pattern) {
                    Some(a) => Some(a.wrapping_add_signed(arm32_offset)),
                    None => None,
                }
            },
        }
    }
}

/// Cache idempotence of signature resolution: after one resolution has run,
/// running the very same resolution again returns the same address, leaves
/// the cache exactly as the first run left it, and performs no raw scan.
pub proof fn lemma_find_signature_idempotent(
    c: Seq<(Seq<char>, Seq<usize>)>,
    regions: Seq<MappedRegion>,
    snaps: Seq<Seq<u8>>,
    key: Seq<char>,
    pbytes: Seq<u8>,
)
    requires
        forall|i: int| 0 <= i < regions.len() ==> (#[trigger] regions[i]).start <= regions[i].end,
        snaps_cover(regions, snaps),
        cache_lookup(c, key) is Some || pattern_tokens(pbytes) is Some,
    ensures
        ({
            let c1 = exec_find_cache(c, regions, snaps, key, pbytes);
            &&& exec_find_result(c1, regions, snaps, key, pbytes) == exec_find_result(
                c,
                regions,
                snaps,
                key,
                pbytes,
            )
            &&& exec_find_cache(c1, regions, snaps, key, pbytes) == c1
            &&& exec_find_scans(c1, regions, key) == 0
        }),
{
    lemma_first_candidate_props(regions);
    match first_candidate(regions) {
        None => {},
        Some(ri) => {
            match cache_lookup(c, key) {
                Some(_) => {},
                None => {
                    let toks = pattern_tokens(pbytes).unwrap();
                    let rel = relative_offsets(snaps[ri], toks, true);
                    let c1 = c.push((key, rel));
                    lemma_cache_lookup_push(c, key, rel);
                    let base = regions[ri].start;
                    match first_match(snaps[ri], toks) {
                        Some(fm) => {
                            assert(rel == seq![fm]);
                            lemma_match_offsets_from(snaps[ri], toks, 0);
                            assert(fm < snaps[ri].len());
                            assert(abs_addr(base, fm) == (base + fm) as usize);
                        },
                        None => {
                            assert(rel.len() == 0);
                        },
                    }
                },
            }
        },
    }
}

/// What `serde_json::from_str` reads out of signature-cache text: a
/// function of the text alone, `None` where the text does not parse as a
/// list of (pattern text, offsets) entries.
pub uninterp spec fn sig_cache_of(s: Seq<char>) -> Option<Seq<(Seq<char>, Seq<usize>)>>;

/// Relies on `serde_json::from_str`: deserializing signature-cache text is
/// a function of the text, named `sig_cache_of`.
#[verifier::external_body]
fn decode_signature_cache(s: &str) -> (r: Option<Vec<(String, Vec<usize>)>>)
    ensures
        match r {
            Some(v) => sig_cache_of(s@) == Some(entry_views(v@)),
            None => sig_cache_of(s@) is None,
        },
{
    serde_json::from_str::<Vec<(String, Vec<usize>)>>(s).ok()
}

/// Relies on `serde_json::to_string`: on a list of (text, offsets) pairs
/// it cannot fail (no map keys, no fallible `Serialize` impl, and the
/// in-memory writer never errors), and what it writes, `from_str` reads
/// back as the same entries.
#[verifier::external_body]
fn encode_signature_cache(v: &Vec<(String, Vec<usize>)>) -> (r: String)
    ensures
        sig_cache_of(r@) == Some(entry_views(v@)),
{
    serde_json::to_string(v).expect("serializing the signature cache cannot fail")
}

impl SignatureCache {
    /// Merges a serialized cache payload from the host into the cache;
    /// reports whether the payload parsed.
    pub fn import_signatures(&mut self, payload: &str) -> (r: bool)
        ensures
            match sig_cache_of(payload@) {
                Some(entries) => r == true && final(self)@ == old(self)@ + entries,
                None => r == false && final(self)@ == old(self)@,
            },
            final(self).scan_count() == old(self).scan_count(),
    {
        match decode_signature_cache(payload) {
            Some(v) => {
                self.add_signatures(v);
                true
            },
            None => false,
        }
    }

    /// Serializes the cache for hand-back to the host; what is written
    /// reads back as exactly the present entries.
    pub fn export_signatures(&self) -> (r: String)
        ensures
            sig_cache_of(r@) == Some(self@),
    {
        let v = self.get_signatures();
        encode_signature_cache(&v)
    }
}


} // verus!
