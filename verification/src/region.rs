//! Module locator: given a snapshot of the process's memory map, record
//! every region backed by a file whose path contains a module-name fragment.

use vstd::prelude::*;

verus! {

/// Permission flags of one mapped memory region.
#[derive(Clone, Copy, PartialEq, Eq, Structural, Debug)]
pub struct Perms {
    pub read: bool,
    pub write: bool,
    pub execute: bool,
}

/// One line of the process's memory map, as handed in by the caller: an
/// address range, its permissions, and the backing file path as UTF-8 bytes
/// (`None` when the mapping is not backed by a real filesystem path).
pub struct MapEntry {
    pub start: usize,
    pub end: usize,
    pub perms: Perms,
    pub path: Option<Vec<u8>>,
}

/// One region recorded for a located module; `end` is exclusive.
pub struct MappedRegion {
    pub start: usize,
    pub end: usize,
    pub perms: Perms,
}

/// No region of the process's memory map matched the requested name.
#[derive(Clone, Copy, PartialEq, Eq, Structural, Debug)]
pub struct LocateError {}

/// `needle` occurs as a contiguous subsequence of `hay`.
pub open spec fn contains_seq(hay: Seq<u8>, needle: Seq<u8>) -> bool {
    exists|i: int|
        0 <= i && i + needle.len() <= hay.len() && #[trigger] hay.subrange(
            i,
            i + needle.len() as int,
        ) == needle
}

/// The entry is backed by a real path that contains `name`.
pub open spec fn entry_matches(e: MapEntry, name: Seq<u8>) -> bool {
    match e.path {
        Some(p) => contains_seq(p@, name),
        None => false,
    }
}

pub open spec fn region_of(e: MapEntry) -> MappedRegion {
    MappedRegion { start: e.start, end: e.end, perms: e.perms }
}

/// The regions a search over `maps` records for `name`, in map order.
pub open spec fn selected_regions(maps: Seq<MapEntry>, name: Seq<u8>) -> Seq<MappedRegion>
    decreases maps.len(),
{
    if maps.len() == 0 {
        Seq::empty()
    } else {
        let rest = selected_regions(maps.drop_first(), name);
        if entry_matches(maps.first(), name) {
            seq![region_of(maps.first())] + rest
        } else {
            rest
        }
    }
}

pub proof fn lemma_selected_regions_append(a: Seq<MapEntry>, b: Seq<MapEntry>, name: Seq<u8>)
    ensures
        selected_regions(a + b, name) == selected_regions(a, name) + selected_regions(b, name),
    decreases a.len(),
{
    if a.len() == 0 {
        assert(a + b =~= b);
        assert(selected_regions(a, name) + selected_regions(b, name) =~= selected_regions(
            b,
            name,
        ));
    } else {
        lemma_selected_regions_append(a.drop_first(), b, name);
        assert((a + b).drop_first() =~= a.drop_first() + b);
        assert((a + b).first() == a.first());
        if entry_matches(a.first(), name) {
            assert(seq![region_of(a.first())] + (selected_regions(a.drop_first(), name)
                + selected_regions(b, name)) =~= (seq![region_of(a.first())] + selected_regions(
                a.drop_first(),
                name,
            )) + selected_regions(b, name));
        }
    }
}

fn window_eq(hay: &Vec<u8>, needle: &Vec<u8>, i: usize) -> (r: bool)
    requires
        i + needle@.len() <= hay@.len(),
    ensures
        r == (hay@.subrange(i as int, i + needle@.len() as int) == needle@),
{
    let n = needle.len();
    let hlen = hay.len();
    let mut j: usize = 0;
    while j < n
        invariant
            n == needle@.len(),
            hlen == hay@.len(),
            i + needle@.len() <= hay@.len(),
            j <= n,
            forall|k: int| 0 <= k < j ==> hay@[i + k] == needle@[k],
        decreases n - j,
    {
        if hay[i + j] != needle[j] {
            assert(hay@.subrange(i as int, i + needle@.len() as int)[j as int] != needle@[j as int]);
            return false;
        }
        j += 1;
    }
    assert(hay@.subrange(i as int, i + needle@.len() as int) =~= needle@);
    true
}

/// Substring test on byte strings, as the path filter of the locator.
pub fn contains_bytes(hay: &Vec<u8>, needle: &Vec<u8>) -> (r: bool)
    ensures
        r == contains_seq(hay@, needle@),
{
    let hn = hay.len();
    let nn = needle.len();
    if nn > hn {
        assert(!contains_seq(hay@, needle@));
        return false;
    }
    let mut i: usize = 0;
    loop
        invariant
            hn == hay@.len(),
            nn == needle@.len(),
            nn <= hn,
            i <= hn - nn,
            forall|k: int|
                0 <= k < i ==> #[trigger] hay@.subrange(k, k + needle@.len() as int) != needle@,
        ensures
            forall|k: int|
                0 <= k <= hn - nn ==> #[trigger] hay@.subrange(k, k + needle@.len() as int)
                    != needle@,
        decreases hn - nn - i,
    {
        if window_eq(hay, needle, i) {
            return true;
        }
        if i == hn - nn {
            assert(forall|k: int|
                0 <= k <= hn - nn ==> #[trigger] hay@.subrange(k, k + needle@.len() as int)
                    != needle@);
            break;
        }
        i += 1;
    }
    false
}

/// A loadable module's name fragment and the memory regions found for it.
pub struct MappedLib {
    pub name: Vec<u8>,
    pub regions: Vec<MappedRegion>,
}

impl MappedLib {
    /// Every recorded region is a well-formed address range.
    pub open spec fn wf(self) -> bool {
        forall|i: int|
            0 <= i < self.regions@.len() ==> (#[trigger] self.regions@[i]).start
                <= self.regions@[i].end
    }

    pub fn new(name: Vec<u8>) -> (r: Self)
        ensures
            r.name@ == name@,
            r.regions@ == Seq::<MappedRegion>::empty(),
            r.wf(),
    {
        MappedLib { name, regions: Vec::new() }
    }

    /// Records every entry of `maps` whose backing path contains this
    /// module's name, in map order; reports failure exactly when no region
    /// at all has been recorded.
    pub fn search(&mut self, maps: &Vec<MapEntry>) -> (r: Result<(), LocateError>)
        requires
            forall|i: int| 0 <= i < maps@.len() ==> (#[trigger] maps@[i]).start <= maps@[i].end,
            old(self).wf(),
        ensures
            final(self).name == old(self).name,
            final(self).regions@ == old(self).regions@ + selected_regions(
                maps@,
                final(self).name@,
            ),
            r is Ok <==> final(self).regions@.len() > 0,
            final(self).wf(),
    {
        let n = maps.len();
        let mut i: usize = 0;
        while i < n
            invariant
                n == maps@.len(),
                i <= n,
                forall|k: int| 0 <= k < maps@.len() ==> (#[trigger] maps@[k]).start <= maps@[k].end,
                self.name == old(self).name,
                self.regions@ == old(self).regions@ + selected_regions(
                    maps@.take(i as int),
                    self.name@,
                ),
                old(self).wf(),
                self.wf(),
            decreases n - i,
        {
            let matched = match &maps[i].path {
                Some(p) => contains_bytes(p, &self.name),
                None => false,
            };
            if matched {
                self.regions.push(MappedRegion {
                    start: maps[i].start,
                    end: maps[i].end,
                    perms: maps[i].perms,
                });
            }
            proof {
                let taken = maps@.take(i as int);
                let taken1 = maps@.take(i + 1);
                assert(taken1 =~= taken + seq![maps@[i as int]]);
                lemma_selected_regions_append(taken, seq![maps@[i as int]], self.name@);
                let single = seq![maps@[i as int]];
                assert(single.first() == maps@[i as int]);
                assert(single.drop_first() =~= Seq::<MapEntry>::empty());
                assert(selected_regions(Seq::<MapEntry>::empty(), self.name@)
                    =~= Seq::<MappedRegion>::empty());
                if entry_matches(maps@[i as int], self.name@) {
                    assert(selected_regions(single, self.name@) =~= seq![
                        region_of(maps@[i as int]),
                    ]);
                } else {
                    assert(selected_regions(single, self.name@) =~= Seq::<MappedRegion>::empty());
                }
                assert(self.regions@ == old(self).regions@ + selected_regions(
                    taken1,
                    self.name@,
                ));
            }
            i += 1;
        }
        proof {
            assert(maps@.take(n as int) =~= maps@);
        }
        if self.regions.len() == 0 {
            Err(LocateError {})
        } else {
            Ok(())
        }
    }
}

/// Locates a module by one name fragment: a fresh search over `maps`.
pub fn locate_module(name: Vec<u8>, maps: &Vec<MapEntry>) -> (r: Result<MappedLib, LocateError>)
    requires
        forall|i: int| 0 <= i < maps@.len() ==> (#[trigger] maps@[i]).start <= maps@[i].end,
    ensures
        match r {
            Ok(lib) => lib.name@ == name@ && lib.regions@ == selected_regions(maps@, name@)
                && lib.regions@.len() > 0 && lib.wf(),
            Err(_) => selected_regions(maps@, name@).len() == 0,
        },
{
    let mut lib = MappedLib::new(name);
    match lib.search(maps) {
        Ok(_) => Ok(lib),
        Err(e) => Err(e),
    }
}

/// Locates a module by a primary name fragment, retrying with a fallback
/// fragment before the failure is reported to the caller.
pub fn locate_with_fallback(primary: Vec<u8>, fallback: Vec<u8>, maps: &Vec<MapEntry>) -> (r:
    Result<MappedLib, LocateError>)
    requires
        forall|i: int| 0 <= i < maps@.len() ==> (#[trigger] maps@[i]).start <= maps@[i].end,
    ensures
        match r {
            Ok(lib) => lib.wf() && lib.regions@.len() > 0 && if selected_regions(
                maps@,
                primary@,
            ).len() > 0 {
                lib.name@ == primary@ && lib.regions@ == selected_regions(maps@, primary@)
            } else {
                lib.name@ == fallback@ && lib.regions@ == selected_regions(maps@, fallback@)
            },
            Err(_) => selected_regions(maps@, primary@).len() == 0 && selected_regions(
                maps@,
                fallback@,
            ).len() == 0,
        },
{
    match locate_module(primary, maps) {
        Ok(lib) => Ok(lib),
        Err(_) => locate_module(fallback, maps),
    }
}

} // verus!
