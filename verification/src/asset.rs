//! Archive interception: decides which opened assets are served rewritten
//! bytes, stores those bytes per asset handle, and runs the rewrite
//! pipeline (decompress, parse, inject the loader shim, serialize,
//! recompress) on the targeted script archive.

use vstd::prelude::*;
use crate::codec::{parse_module_spec, serialize_module, wf_pairs, CodecError, ComposerModule,
    TagView};
use crate::inject::{find_byte, inject_loader, inject_post};

verus! {

/// First-match lookup of a handle among (handle, bytes) entries.
pub open spec fn store_lookup(s: Seq<(usize, Seq<u8>)>, handle: usize) -> Option<Seq<u8>>
    decreases s.len(),
{
    if s.len() == 0 {
        None
    } else if s[0].0 == handle {
        Some(s[0].1)
    } else {
        store_lookup(s.drop_first(), handle)
    }
}

proof fn lemma_store_lookup_at(s: Seq<(usize, Seq<u8>)>, handle: usize, i: int)
    requires
        0 <= i < s.len(),
        s[i].0 == handle,
        forall|k: int| 0 <= k < i ==> (#[trigger] s[k]).0 != handle,
    ensures
        store_lookup(s, handle) == Some(s[i].1),
    decreases s.len(),
{
    if i > 0 {
        assert(s.drop_first()[i - 1] == s[i]);
        assert forall|k: int| 0 <= k < i - 1 implies (#[trigger] s.drop_first()[k]).0 != handle by {
            assert(s.drop_first()[k] == s[k + 1]);
        }
        lemma_store_lookup_at(s.drop_first(), handle, i - 1);
    }
}

proof fn lemma_store_lookup_none(s: Seq<(usize, Seq<u8>)>, handle: usize)
    requires
        forall|k: int| 0 <= k < s.len() ==> (#[trigger] s[k]).0 != handle,
    ensures
        store_lookup(s, handle) is None,
    decreases s.len(),
{
    if s.len() > 0 {
        assert forall|k: int|
            0 <= k < s.drop_first().len() implies (#[trigger] s.drop_first()[k]).0 != handle by {
            assert(s.drop_first()[k] == s[k + 1]);
        }
        lemma_store_lookup_none(s.drop_first(), handle);
    }
}

/// The views of the store's entries.
pub open spec fn store_views(entries: Seq<(usize, Vec<u8>)>) -> Seq<(usize, Seq<u8>)> {
    Seq::new(entries.len(), |i: int| (entries[i].0, entries[i].1@))
}

/// Rewritten asset bytes keyed by the asset handle they were opened under.
/// Handles never seen by an interception always delegate to the original
/// asset functions.
pub struct AssetStore {
    entries: Vec<(usize, Vec<u8>)>,
}

impl View for AssetStore {
    type V = Seq<(usize, Seq<u8>)>;

    closed spec fn view(&self) -> Seq<(usize, Seq<u8>)> {
        store_views(self.entries@)
    }
}

impl AssetStore {
    /// Each handle appears at most once.
    pub open spec fn wf(&self) -> bool {
        forall|i: int, j: int|
            0 <= i < j < self@.len() ==> (#[trigger] self@[i]).0 != (#[trigger] self@[j]).0
    }

    /// The rewritten bytes stored for a handle, if any.
    pub open spec fn stored(&self, handle: usize) -> Option<Seq<u8>> {
        store_lookup(self@, handle)
    }

    pub fn new() -> (r: AssetStore)
        ensures
            r.wf(),
            forall|h: usize| r.stored(h) is None,
    {
        let r = AssetStore { entries: Vec::new() };
        proof {
            assert(r@ =~= Seq::<(usize, Seq<u8>)>::empty());
            assert forall|h: usize| r.stored(h) is None by {
                lemma_store_lookup_none(r@, h);
            }
        }
        r
    }

    fn find_handle(&self, handle: usize) -> (r: Option<usize>)
        ensures
            match r {
                Some(i) => i < self@.len() && self@[i as int].0 == handle && self.stored(handle)
                    == Some(self@[i as int].1),
                None => self.stored(handle) is None,
            },
    {
        let n = self.entries.len();
        let mut i: usize = 0;
        while i < n
            invariant
                n == self.entries@.len(),
                i <= n,
                forall|k: int| 0 <= k < i ==> (#[trigger] self@[k]).0 != handle,
            decreases n - i,
        {
            if self.entries[i].0 == handle {
                proof {
                    lemma_store_lookup_at(self@, handle, i as int);
                }
                return Some(i);
            }
            proof {
                assert(self@[i as int].0 == self.entries@[i as int].0);
            }
            i += 1;
        }
        proof {
            lemma_store_lookup_none(self@, handle);
        }
        None
    }

    /// Remembers rewritten bytes for a handle, replacing what a re-opened
    /// handle carried before.
    pub fn insert(&mut self, handle: usize, bytes: Vec<u8>)
        requires
            old(self).wf(),
        ensures
            final(self).wf(),
            final(self).stored(handle) == Some(bytes@),
            forall|h: usize| h != handle ==> final(self).stored(h) == old(self).stored(h),
    {
        let ghost pre = self@;
        match self.find_handle(handle) {
            Some(i) => {
                let _ = self.entries.remove(i);
                self.entries.insert(i, (handle, bytes));
                proof {
                    let post = self@;
                    assert(post.len() == pre.len());
                    assert(post[i as int] == (handle, bytes@));
                    assert forall|k: int|
                        0 <= k < pre.len() && k != i implies post[k] == pre[k] by {}
                    assert forall|k: int| 0 <= k < i implies (#[trigger] post[k]).0 != handle by {
                        assert(post[k] == pre[k]);
                        assert(pre[i as int].0 == handle);
                    }
                    lemma_store_lookup_at(post, handle, i as int);
                    assert forall|h: usize|
                        h != handle implies store_lookup(post, h) == store_lookup(pre, h) by {
                        lemma_store_replace_other(pre, post, i as int, h);
                    }
                }
            },
            None => {
                self.entries.push((handle, bytes));
                proof {
                    let post = self@;
                    assert(post =~= pre.push((handle, bytes@)));
                    lemma_store_push(pre, (handle, bytes@));
                    assert forall|h: usize|
                        h != handle implies store_lookup(post, h) == store_lookup(pre, h) by {
                        lemma_store_push_other(pre, h, (handle, bytes@));
                    }
                    assert forall|i: int, j: int|
                        0 <= i < j < post.len() implies (#[trigger] post[i]).0 != (
                    #[trigger] post[j]).0 by {
                        if j == pre.len() {
                            if post[i].0 == handle {
                                lemma_store_lookup_at(pre, handle, choose|w: int|
                                    0 <= w < pre.len() && (#[trigger] pre[w]).0 == handle && forall|
                                        m: int,
                                    |
                                        0 <= m < w ==> (#[trigger] pre[m]).0 != handle);
                            }
                        }
                    }
                }
            },
        }
    }

    /// The intercepted length answer for a handle: `Some` is served from
    /// the stored rewrite, `None` delegates to the original function.
    pub fn stored_length(&self, handle: usize) -> (r: Option<usize>)
        ensures
            match r {
                Some(n) => self.stored(handle) matches Some(b) && n == b.len(),
                None => self.stored(handle) is None,
            },
    {
        match self.find_handle(handle) {
            Some(i) => Some(self.entries[i].1.len()),
            None => None,
        }
    }

    /// The intercepted buffer answer for a handle: `Some` is served from
    /// the stored rewrite, `None` delegates to the original function.
    pub fn stored_bytes(&self, handle: usize) -> (r: Option<&Vec<u8>>)
        ensures
            match r {
                Some(b) => self.stored(handle) == Some(b@),
                None => self.stored(handle) is None,
            },
    {
        match self.find_handle(handle) {
            Some(i) => Some(&self.entries[i].1),
            None => None,
        }
    }

    /// Drops the entry for a closed handle, releasing the stored buffer.
    pub fn remove(&mut self, handle: usize)
        requires
            old(self).wf(),
        ensures
            final(self).wf(),
            final(self).stored(handle) is None,
            forall|h: usize| h != handle ==> final(self).stored(h) == old(self).stored(h),
    {
        let ghost pre = self@;
        match self.find_handle(handle) {
            Some(i) => {
                let _ = self.entries.remove(i);
                proof {
                    let post = self@;
                    assert(post.len() == pre.len() - 1);
                    assert forall|k: int|
                        0 <= k < post.len() implies post[k] == (if k < i {
                        pre[k]
                    } else {
                        pre[k + 1]
                    }) by {}
                    assert forall|k: int| 0 <= k < post.len() implies (#[trigger] post[k]).0
                        != handle by {
                        if k < i {
                            assert(post[k] == pre[k]);
                            assert(pre[i as int].0 == handle);
                        } else {
                            assert(post[k] == pre[k + 1]);
                            assert(pre[i as int].0 == handle);
                        }
                    }
                    lemma_store_lookup_none(post, handle);
                    assert forall|h: usize|
                        h != handle implies store_lookup(post, h) == store_lookup(pre, h) by {
                        lemma_store_remove_other(pre, post, i as int, h);
                    }
                }
            },
            None => {},
        }
    }
}

proof fn lemma_store_push(s: Seq<(usize, Seq<u8>)>, entry: (usize, Seq<u8>))
    requires
        store_lookup(s, entry.0) is None,
    ensures
        store_lookup(s.push(entry), entry.0) == Some(entry.1),
    decreases s.len(),
{
    if s.len() == 0 {
        assert(s.push(entry)[0] == entry);
    } else {
        assert(s.push(entry)[0] == s[0]);
        assert(s.push(entry).drop_first() =~= s.drop_first().push(entry));
        lemma_store_push(s.drop_first(), entry);
    }
}

proof fn lemma_store_push_other(s: Seq<(usize, Seq<u8>)>, h: usize, entry: (usize, Seq<u8>))
    requires
        entry.0 != h,
    ensures
        store_lookup(s.push(entry), h) == store_lookup(s, h),
    decreases s.len(),
{
    if s.len() == 0 {
        assert(s.push(entry)[0] == entry);
        assert(s.push(entry).drop_first() =~= Seq::<(usize, Seq<u8>)>::empty());
        assert(store_lookup(Seq::<(usize, Seq<u8>)>::empty(), h) is None);
    } else {
        assert(s.push(entry)[0] == s[0]);
        assert(s.push(entry).drop_first() =~= s.drop_first().push(entry));
        lemma_store_push_other(s.drop_first(), h, entry);
    }
}

proof fn lemma_store_replace_other(
    pre: Seq<(usize, Seq<u8>)>,
    post: Seq<(usize, Seq<u8>)>,
    idx: int,
    h: usize,
)
    requires
        0 <= idx < pre.len(),
        post.len() == pre.len(),
        forall|k: int| 0 <= k < pre.len() && k != idx ==> post[k] == pre[k],
        post[idx].0 == pre[idx].0,
        pre[idx].0 != h,
    ensures
        store_lookup(post, h) == store_lookup(pre, h),
    decreases pre.len(),
{
    if idx == 0 {
        assert(post[0].0 == pre[0].0);
        assert(post.drop_first() =~= pre.drop_first());
    } else {
        assert(post[0] == pre[0]);
        if pre[0].0 != h {
            assert forall|k: int|
                0 <= k < pre.drop_first().len() && k != idx - 1 implies post.drop_first()[k]
                == pre.drop_first()[k] by {
                assert(post.drop_first()[k] == post[k + 1]);
                assert(pre.drop_first()[k] == pre[k + 1]);
            }
            assert(post.drop_first()[idx - 1].0 == pre.drop_first()[idx - 1].0);
            lemma_store_replace_other(pre.drop_first(), post.drop_first(), idx - 1, h);
        }
    }
}

proof fn lemma_store_remove_other(
    pre: Seq<(usize, Seq<u8>)>,
    post: Seq<(usize, Seq<u8>)>,
    idx: int,
    h: usize,
)
    requires
        0 <= idx < pre.len(),
        post.len() == pre.len() - 1,
        forall|k: int| 0 <= k < idx ==> post[k] == pre[k],
        forall|k: int| idx <= k < post.len() ==> post[k] == pre[k + 1],
        pre[idx].0 != h,
    ensures
        store_lookup(post, h) == store_lookup(pre, h),
    decreases pre.len(),
{
    if idx == 0 {
        assert(post =~= pre.drop_first());
    } else {
        assert(post[0] == pre[0]);
        if pre[0].0 != h {
            assert forall|k: int|
                0 <= k < idx - 1 implies post.drop_first()[k] == pre.drop_first()[k] by {
                assert(post.drop_first()[k] == post[k + 1]);
                assert(pre.drop_first()[k] == pre[k + 1]);
            }
            assert forall|k: int|
                idx - 1 <= k < post.drop_first().len() implies post.drop_first()[k]
                == pre.drop_first()[k + 1] by {
                assert(post.drop_first()[k] == post[k + 1]);
                assert(pre.drop_first()[k + 1] == pre[k + 2]);
            }
            lemma_store_remove_other(pre.drop_first(), post.drop_first(), idx - 1, h);
        }
    }
}


/// What zstd decompression yields for a byte stream: a function of the
/// bytes alone, `None` where they are not a valid compressed frame.
pub uninterp spec fn zstd_decoded(s: Seq<u8>) -> Option<Seq<u8>>;

/// Relies on `zstd::stream::decode_all`: decompression is a function of the
/// input bytes, named `zstd_decoded`.
#[verifier::external_body]
fn zstd_decompress(data: &Vec<u8>) -> (r: Option<Vec<u8>>)
    ensures
        match r {
            Some(v) => zstd_decoded(data@) == Some(v@),
            None => zstd_decoded(data@) is None,
        },
{
    zstd::stream::decode_all(data.as_slice()).ok()
}

/// Relies on `zstd::stream::encode_all`: what it compresses,
/// `zstd::stream::decode_all` decompresses back to the input.
#[verifier::external_body]
fn zstd_compress(data: &Vec<u8>, level: i32) -> (r: Option<Vec<u8>>)
    ensures
        match r {
            Some(v) => zstd_decoded(v@) == Some(data@),
            None => true,
        },
{
    zstd::stream::encode_all(data.as_slice(), level).ok()
}

/// The bytes of `bridge_observables`, the name prefix of the targeted
/// script archive.
pub open spec fn archive_prefix_spec() -> Seq<u8> {
    seq![98u8, 114u8, 105u8, 100u8, 103u8, 101u8, 95u8, 111u8, 98u8, 115u8, 101u8, 114u8, 118u8, 97u8, 98u8, 108u8, 101u8, 115u8]
}

fn archive_prefix() -> (r: Vec<u8>)
    ensures
        r@ == archive_prefix_spec(),
{
    let mut r: Vec<u8> = Vec::new();
    r.push(98);
    r.push(114);
    r.push(105);
    r.push(100);
    r.push(103);
    r.push(101);
    r.push(95);
    r.push(111);
    r.push(98);
    r.push(115);
    r.push(101);
    r.push(114);
    r.push(118);
    r.push(97);
    r.push(98);
    r.push(108);
    r.push(101);
    r.push(115);
    proof {
        assert(r@ =~= archive_prefix_spec());
    }
    r
}

/// `prefix` stands at the very start of `s`.
pub open spec fn starts_with(s: Seq<u8>, prefix: Seq<u8>) -> bool {
    s.len() >= prefix.len() && s.subrange(0, prefix.len() as int) == prefix
}

/// The open-interception decision: only assets whose path begins with the
/// targeted archive name are rewritten; all others delegate untouched.
pub fn should_intercept(path: &Vec<u8>) -> (r: bool)
    ensures
        r == starts_with(path@, archive_prefix_spec()),
{
    let prefix = archive_prefix();
    let m = prefix.len();
    if path.len() < m {
        return false;
    }
    let mut j: usize = 0;
    while j < m
        invariant
            m == prefix@.len(),
            prefix@ == archive_prefix_spec(),
            m <= path@.len(),
            j <= m,
            forall|k: int| 0 <= k < j ==> path@[k] == prefix@[k],
        decreases m - j,
    {
        if path[j] != prefix[j] {
            assert(path@.subrange(0, m as int)[j as int] != prefix@[j as int]);
            return false;
        }
        j += 1;
    }
    assert(path@.subrange(0, m as int) =~= prefix@);
    true
}

/// Why an archive rewrite was abandoned.
#[derive(Clone, Copy, PartialEq, Eq, Structural, Debug)]
pub enum RewriteError {
    /// The stored asset bytes are not a valid compressed frame.
    DecompressFailed,
    /// The decompressed bytes are not a well-formed container.
    Format(CodecError),
    /// Recompression of the rewritten container failed.
    CompressFailed,
}

/// The compression level the rewritten archive is stored under.
pub open spec fn rewrite_level() -> int {
    3
}

/// Rewrites the targeted script archive: decompress, parse the container,
/// splice in the loader shim under the given suffix, serialize, and
/// recompress.  An archive without the targeted pair is still re-encoded
/// unchanged, as the interception serves its bytes either way.
pub fn rewrite_archive(
    archive: &Vec<u8>,
    asset_path: &Vec<u8>,
    loader: &Vec<u8>,
    suffix: &Vec<u8>,
) -> (r: Result<Vec<u8>, RewriteError>)
    requires
        find_byte(asset_path@, 46) is Some,
        suffix@.len() > 0,
        forall|k: int| 0 <= k < suffix@.len() ==> 48 <= #[trigger] suffix@[k] <= 57,
    ensures
        match r {
            Ok(out) => zstd_decoded(archive@) matches Some(plain)
                && parse_module_spec(plain) matches Ok(tags) && exists|
                post: Seq<(TagView, TagView)>,
                injected: bool,
            |
                wf_pairs(post) && #[trigger] inject_post(
                    tags,
                    post,
                    asset_path@,
                    loader@,
                    suffix@,
                    injected,
                ) && zstd_decoded(out@) == Some(serialize_module(post)),
            Err(RewriteError::DecompressFailed) => zstd_decoded(archive@) is None,
            Err(RewriteError::Format(e)) => zstd_decoded(archive@) matches Some(plain)
                && parse_module_spec(plain) == Err::<Seq<(TagView, TagView)>, CodecError>(e),
            Err(RewriteError::CompressFailed) => true,
        },
        zstd_decoded(archive@) is None <==> r == Err::<Vec<u8>, RewriteError>(
            RewriteError::DecompressFailed,
        ),
        (zstd_decoded(archive@) matches Some(plain) && parse_module_spec(plain) is Err) ==> (r
            matches Err(e) && e matches RewriteError::Format(_)),
{
    let plain = match zstd_decompress(archive) {
        Some(p) => p,
        None => {
            return Err(RewriteError::DecompressFailed);
        },
    };
    let mut module = match ComposerModule::parse(plain) {
        Ok(m) => m,
        Err(e) => {
            return Err(RewriteError::Format(e));
        },
    };
    let injected = inject_loader(&mut module, asset_path, loader, suffix);
    let rebuilt = module.to_bytes();
    match zstd_compress(&rebuilt, 3) {
        Some(out) => {
            proof {
                assert(wf_pairs(module@));
            }
            Ok(out)
        },
        None => Err(RewriteError::CompressFailed),
    }
}


} // verus!
