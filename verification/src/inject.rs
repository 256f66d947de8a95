//! Loader-shim injection: finds the tag pair whose name ends with the
//! target script path, renames that script to a suffixed alternate name, and
//! appends a synthetic pair, under the original name, whose content
//! re-exports the renamed module through a require-style reference.

use vstd::prelude::*;
use crate::codec::{ComposerModule, ModuleTag, TagView, pairs_view};

verus! {

/// The bytes of `src/utils/converter.js`, the relative path of the script
/// that the loader shim is spliced in front of.
pub open spec fn target_path_spec() -> Seq<u8> {
    seq![115u8, 114u8, 99u8, 47u8, 117u8, 116u8, 105u8, 108u8, 115u8, 47u8, 99u8, 111u8, 110u8, 118u8, 101u8, 114u8, 116u8, 101u8, 114u8, 46u8, 106u8, 115u8]
}

/// The bytes of `.js`.
pub open spec fn js_ext_spec() -> Seq<u8> {
    seq![46u8, 106u8, 115u8]
}

/// The bytes between the loader text and the module path in the generated
/// re-export: `;module.exports = require("`.
pub open spec fn require_open_spec() -> Seq<u8> {
    seq![59u8, 109u8, 111u8, 100u8, 117u8, 108u8, 101u8, 46u8, 101u8, 120u8, 112u8, 111u8, 114u8, 116u8, 115u8, 32u8, 61u8, 32u8, 114u8, 101u8, 113u8, 117u8, 105u8, 114u8, 101u8, 40u8, 34u8]
}

/// The bytes closing the generated re-export: `");`.
pub open spec fn require_close_spec() -> Seq<u8> {
    seq![34u8, 41u8, 59u8]
}

fn target_path() -> (r: Vec<u8>)
    ensures
        r@ == target_path_spec(),
{
    let mut r: Vec<u8> = Vec::new();
    r.push(115);
    r.push(114);
    r.push(99);
    r.push(47);
    r.push(117);
    r.push(116);
    r.push(105);
    r.push(108);
    r.push(115);
    r.push(47);
    r.push(99);
    r.push(111);
    r.push(110);
    r.push(118);
    r.push(101);
    r.push(114);
    r.push(116);
    r.push(101);
    r.push(114);
    r.push(46);
    r.push(106);
    r.push(115);
    proof {
        assert(r@ =~= target_path_spec());
    }
    r
}

fn js_ext() -> (r: Vec<u8>)
    ensures
        r@ == js_ext_spec(),
{
    let mut r: Vec<u8> = Vec::new();
    r.push(46);
    r.push(106);
    r.push(115);
    proof {
        assert(r@ =~= js_ext_spec());
    }
    r
}

fn require_open() -> (r: Vec<u8>)
    ensures
        r@ == require_open_spec(),
{
    let mut r: Vec<u8> = Vec::new();
    r.push(59);
    r.push(109);
    r.push(111);
    r.push(100);
    r.push(117);
    r.push(108);
    r.push(101);
    r.push(46);
    r.push(101);
    r.push(120);
    r.push(112);
    r.push(111);
    r.push(114);
    r.push(116);
    r.push(115);
    r.push(32);
    r.push(61);
    r.push(32);
    r.push(114);
    r.push(101);
    r.push(113);
    r.push(117);
    r.push(105);
    r.push(114);
    r.push(101);
    r.push(40);
    r.push(34);
    proof {
        assert(r@ =~= require_open_spec());
    }
    r
}

fn require_close() -> (r: Vec<u8>)
    ensures
        r@ == require_close_spec(),
{
    let mut r: Vec<u8> = Vec::new();
    r.push(34);
    r.push(41);
    r.push(59);
    proof {
        assert(r@ =~= require_close_spec());
    }
    r
}


/// `suffix` occurs at the very end of `s`.
pub open spec fn ends_with(s: Seq<u8>, suffix: Seq<u8>) -> bool {
    s.len() >= suffix.len() && s.subrange(s.len() - suffix.len(), s.len() as int) == suffix
}

/// The first index at which byte `b` occurs in `s`.
pub open spec fn find_byte(s: Seq<u8>, b: u8) -> Option<int>
    decreases s.len(),
{
    if s.len() == 0 {
        None
    } else if s[0] == b {
        Some(0)
    } else {
        match find_byte(s.drop_first(), b) {
            Some(i) => Some(i + 1),
            None => None,
        }
    }
}

pub proof fn lemma_find_byte(s: Seq<u8>, b: u8)
    ensures
        match find_byte(s, b) {
            Some(i) => 0 <= i < s.len() && s[i] == b && forall|k: int| 0 <= k < i ==> s[k] != b,
            None => forall|k: int| 0 <= k < s.len() ==> s[k] != b,
        },
    decreases s.len(),
{
    if s.len() > 0 && s[0] != b {
        lemma_find_byte(s.drop_first(), b);
        match find_byte(s.drop_first(), b) {
            Some(i) => {
                assert(s.drop_first()[i] == s[i + 1]);
                assert forall|k: int| 0 <= k < i + 1 implies s[k] != b by {
                    if k > 0 {
                        assert(s.drop_first()[k - 1] == s[k]);
                    }
                }
            },
            None => {
                assert forall|k: int| 0 <= k < s.len() implies s[k] != b by {
                    if k > 0 {
                        assert(s.drop_first()[k - 1] == s[k]);
                    }
                }
            },
        }
    }
}

fn ends_with_bytes(s: &Vec<u8>, suffix: &Vec<u8>) -> (r: bool)
    ensures
        r == ends_with(s@, suffix@),
{
    let n = s.len();
    let m = suffix.len();
    if m > n {
        return false;
    }
    let mut j: usize = 0;
    while j < m
        invariant
            n == s@.len(),
            m == suffix@.len(),
            m <= n,
            j <= m,
            forall|k: int| 0 <= k < j ==> s@[n - m + k] == suffix@[k],
        decreases m - j,
    {
        if s[n - m + j] != suffix[j] {
            assert(s@.subrange(n - m, n as int)[j as int] != suffix@[j as int]);
            return false;
        }
        j += 1;
    }
    assert(s@.subrange(n - m, n as int) =~= suffix@);
    true
}

fn find_byte_exec(s: &Vec<u8>, b: u8) -> (r: Option<usize>)
    ensures
        match r {
            Some(i) => find_byte(s@, b) == Some(i as int),
            None => find_byte(s@, b) is None,
        },
{
    proof {
        lemma_find_byte(s@, b);
    }
    let n = s.len();
    let mut i: usize = 0;
    while i < n
        invariant
            n == s@.len(),
            i <= n,
            forall|k: int| 0 <= k < i ==> s@[k] != b,
        decreases n - i,
    {
        if s[i] == b {
            proof {
                lemma_find_byte(s@, b);
                match find_byte(s@, b) {
                    Some(j) => {
                        if j < i {
                            assert(s@[j] != b);
                        }
                        if j > i {
                            assert(s@[i as int] != b);
                        }
                    },
                    None => {
                        assert(s@[i as int] != b);
                    },
                }
            }
            return Some(i);
        }
        i += 1;
    }
    proof {
        lemma_find_byte(s@, b);
        match find_byte(s@, b) {
            Some(j) => {
                assert(s@[j] != b);
            },
            None => {},
        }
    }
    None
}

fn append_bytes(dst: &mut Vec<u8>, src: &Vec<u8>)
    ensures
        final(dst)@ == old(dst)@ + src@,
{
    let n = src.len();
    let mut i: usize = 0;
    while i < n
        invariant
            n == src@.len(),
            i <= n,
            dst@ == old(dst)@ + src@.take(i as int),
        decreases n - i,
    {
        dst.push(src[i]);
        proof {
            assert(old(dst)@ + src@.take(i + 1) =~= (old(dst)@ + src@.take(i as int)).push(
                src@[i as int],
            ));
        }
        i += 1;
    }
    proof {
        assert(old(dst)@ + src@.take(n as int) =~= old(dst)@ + src@);
    }
}

fn append_range(dst: &mut Vec<u8>, src: &Vec<u8>, from: usize, to: usize)
    requires
        from <= to <= src@.len(),
    ensures
        final(dst)@ == old(dst)@ + src@.subrange(from as int, to as int),
{
    let mut i: usize = from;
    while i < to
        invariant
            from <= i <= to <= src@.len(),
            dst@ == old(dst)@ + src@.subrange(from as int, i as int),
        decreases to - i,
    {
        dst.push(src[i]);
        proof {
            assert(old(dst)@ + src@.subrange(from as int, i + 1) =~= (old(dst)@ + src@.subrange(
                from as int,
                i as int,
            )).push(src@[i as int]));
        }
        i += 1;
    }
}

/// The renamed script name: everything before the name's first `.`, then the
/// suffix, then `.js`.
pub open spec fn rename_of(name: Seq<u8>, suffix: Seq<u8>) -> Seq<u8> {
    match find_byte(name, 46) {
        Some(i) => name.subrange(0, i) + suffix + js_ext_spec(),
        None => name,
    }
}

/// The module path the generated re-export refers to: the asset path up to
/// its first `.`, a `/`, the name up to its first `.`, and the suffix.
pub open spec fn module_path_of(asset_path: Seq<u8>, name: Seq<u8>, suffix: Seq<u8>) -> Seq<u8> {
    let p = match find_byte(asset_path, 46) {
        Some(p) => p,
        None => 0,
    };
    let i = match find_byte(name, 46) {
        Some(i) => i,
        None => 0,
    };
    asset_path.subrange(0, p) + seq![47u8] + name.subrange(0, i) + suffix
}

/// The content of the appended pair's second tag: the loader text followed
/// by a require-style re-export of the renamed module.
pub open spec fn shim_content(
    loader: Seq<u8>,
    asset_path: Seq<u8>,
    name: Seq<u8>,
    suffix: Seq<u8>,
) -> Seq<u8> {
    loader + require_open_spec() + module_path_of(asset_path, name, suffix) + require_close_spec()
}

/// The first pair whose first tag's content ends with the target path.
pub open spec fn target_pair_index(tags: Seq<(TagView, TagView)>) -> Option<int>
    decreases tags.len(),
{
    if tags.len() == 0 {
        None
    } else if ends_with(tags[0].0.buffer, target_path_spec()) {
        Some(0)
    } else {
        match target_pair_index(tags.drop_first()) {
            Some(i) => Some(i + 1),
            None => None,
        }
    }
}

pub proof fn lemma_target_pair_index(tags: Seq<(TagView, TagView)>)
    ensures
        match target_pair_index(tags) {
            Some(i) => 0 <= i < tags.len() && ends_with(tags[i].0.buffer, target_path_spec())
                && forall|k: int|
                0 <= k < i ==> !ends_with(#[trigger] tags[k].0.buffer, target_path_spec()),
            None => forall|k: int|
                0 <= k < tags.len() ==> !ends_with(
                    #[trigger] tags[k].0.buffer,
                    target_path_spec(),
                ),
        },
    decreases tags.len(),
{
    if tags.len() > 0 && !ends_with(tags[0].0.buffer, target_path_spec()) {
        lemma_target_pair_index(tags.drop_first());
        match target_pair_index(tags.drop_first()) {
            Some(i) => {
                assert(tags.drop_first()[i] == tags[i + 1]);
                assert forall|k: int|
                    0 <= k < i + 1 implies !ends_with(
                    #[trigger] tags[k].0.buffer,
                    target_path_spec(),
                ) by {
                    if k > 0 {
                        assert(tags.drop_first()[k - 1] == tags[k]);
                    }
                }
            },
            None => {
                assert forall|k: int|
                    0 <= k < tags.len() implies !ends_with(
                    #[trigger] tags[k].0.buffer,
                    target_path_spec(),
                ) by {
                    if k > 0 {
                        assert(tags.drop_first()[k - 1] == tags[k]);
                    }
                }
            },
        }
    }
}

fn find_target(tags: &Vec<(ModuleTag, ModuleTag)>, tpath: &Vec<u8>) -> (r: Option<usize>)
    requires
        tpath@ == target_path_spec(),
    ensures
        match target_pair_index(pairs_view(tags@)) {
            Some(i) => r == Some(i as usize),
            None => r is None,
        },
{
    proof {
        lemma_target_pair_index(pairs_view(tags@));
    }
    let n = tags.len();
    let mut i: usize = 0;
    while i < n
        invariant
            n == tags@.len(),
            i <= n,
            tpath@ == target_path_spec(),
            forall|k: int|
                0 <= k < i ==> !ends_with(
                    #[trigger] pairs_view(tags@)[k].0.buffer,
                    target_path_spec(),
                ),
        decreases n - i,
    {
        if ends_with_bytes(tags[i].0.get_buffer(), tpath) {
            proof {
                assert(pairs_view(tags@)[i as int].0.buffer == tags@[i as int].0@.buffer);
                lemma_target_pair_index(pairs_view(tags@));
                match target_pair_index(pairs_view(tags@)) {
                    Some(j) => {
                        if j < i {
                            assert(!ends_with(
                                pairs_view(tags@)[j].0.buffer,
                                target_path_spec(),
                            ));
                        }
                        if j > i {
                            assert(!ends_with(
                                pairs_view(tags@)[i as int].0.buffer,
                                target_path_spec(),
                            ));
                        }
                    },
                    None => {
                        assert(!ends_with(
                            pairs_view(tags@)[i as int].0.buffer,
                            target_path_spec(),
                        ));
                    },
                }
            }
            return Some(i);
        }
        proof {
            assert(pairs_view(tags@)[i as int].0.buffer == tags@[i as int].0@.buffer);
        }
        i += 1;
    }
    proof {
        lemma_target_pair_index(pairs_view(tags@));
        match target_pair_index(pairs_view(tags@)) {
            Some(j) => {
                assert(!ends_with(pairs_view(tags@)[j].0.buffer, target_path_spec()));
            },
            None => {},
        }
    }
    None
}

/// How one injection rewrites the pair list: the first pair whose name ends
/// with the target path has its first tag's content renamed, and one
/// synthetic pair is appended carrying the original name and the loader
/// shim; nothing happens when no pair matches or a rewritten payload would
/// overflow the format's 24-bit length field.
pub open spec fn inject_post(
    pre: Seq<(TagView, TagView)>,
    post: Seq<(TagView, TagView)>,
    asset_path: Seq<u8>,
    loader: Seq<u8>,
    suffix: Seq<u8>,
    r: bool,
) -> bool {
    match target_pair_index(pre) {
        None => r == false && post == pre,
        Some(i) => {
            let name = pre[i].0.buffer;
            let renamed = rename_of(name, suffix);
            let shim = shim_content(loader, asset_path, name, suffix);
            if renamed.len() < 0x1000000 && shim.len() < 0x1000000 {
                &&& r == true
                &&& post.len() == pre.len() + 1
                &&& post[i].0 == (TagView { tag_type: pre[i].0.tag_type, buffer: renamed })
                &&& renamed != name
                &&& post[i].1 == pre[i].1
                &&& (forall|k: int| 0 <= k < pre.len() && k != i ==> post[k] == pre[k])
                &&& post.last() == (
                    TagView { tag_type: 128, buffer: name },
                    TagView { tag_type: 128, buffer: shim },
                )
            } else {
                r == false && post == pre
            }
        },
    }
}

/// Splices the loader shim into the module under the given numeric suffix.
pub fn inject_loader(
    module: &mut ComposerModule,
    asset_path: &Vec<u8>,
    loader: &Vec<u8>,
    suffix: &Vec<u8>,
) -> (r: bool)
    requires
        old(module).wf(),
        find_byte(asset_path@, 46) is Some,
        suffix@.len() > 0,
        forall|k: int| 0 <= k < suffix@.len() ==> 48 <= #[trigger] suffix@[k] <= 57,
    ensures
        final(module).wf(),
        inject_post(old(module)@, final(module)@, asset_path@, loader@, suffix@, r),
{
    let tpath = target_path();
    let mut tags = module.get_tags();
    proof {
        assert(pairs_view(tags@) == old(module)@);
    }
    let ntags = tags.len();
    let idx = match find_target(&tags, &tpath) {
        Some(i) => i,
        None => {
            return false;
        },
    };
    proof {
        assert(ntags == tags@.len());
        lemma_target_pair_index(pairs_view(tags@));
        assert(target_pair_index(pairs_view(tags@)) == Some(idx as int));
    }
    let name = vstd::slice::slice_to_vec(tags[idx].0.get_buffer().as_slice());
    let ghost namev = name@;
    // the name ends with the target path, which holds a `.`, so the split
    // cannot miss
    proof {
        assert(pairs_view(tags@)[idx as int].0.buffer == namev);
        assert(ends_with(namev, target_path_spec()));
        assert(namev[namev.len() - 3] == 46) by {
            assert(namev.subrange(
                namev.len() - target_path_spec().len(),
                namev.len() as int,
            )[target_path_spec().len() - 3] == 46);
        }
        lemma_find_byte(namev, 46);
    }
    let dot = match find_byte_exec(&name, 46) {
        Some(d) => d,
        None => {
            proof {
                assert(false);
            }
            0
        },
    };
    let pdot = match find_byte_exec(asset_path, 46) {
        Some(d) => d,
        None => {
            proof {
                assert(false);
            }
            0
        },
    };
    proof {
        lemma_find_byte(asset_path@, 46);
    }
    let mut renamed: Vec<u8> = Vec::new();
    append_range(&mut renamed, &name, 0, dot);
    append_bytes(&mut renamed, suffix);
    let ext = js_ext();
    append_bytes(&mut renamed, &ext);
    proof {
        assert(renamed@ == rename_of(namev, suffix@));
    }
    let mut shim: Vec<u8> = Vec::new();
    append_bytes(&mut shim, loader);
    let ro = require_open();
    append_bytes(&mut shim, &ro);
    append_range(&mut shim, asset_path, 0, pdot);
    shim.push(47);
    append_range(&mut shim, &name, 0, dot);
    append_bytes(&mut shim, suffix);
    let rc = require_close();
    append_bytes(&mut shim, &rc);
    proof {
        assert(shim@ =~= shim_content(loader@, asset_path@, namev, suffix@));
    }
    if renamed.len() >= 0x1000000 || shim.len() >= 0x1000000 {
        return false;
    }
    let ghost renamedv = renamed@;
    let ghost shimv = shim@;
    proof {
        // the rename changes the content: at the split point the old name
        // holds `.` while the new one holds the suffix's first digit
        assert(renamedv[dot as int] == suffix@[0]);
        assert(renamedv != namev);
    }
    let ghost pre = pairs_view(tags@);
    let pair = tags.remove(idx);
    let t2 = pair.1;
    let ty = pair.0.get_tag_type();
    tags.insert(idx, (ModuleTag::new(ty, renamed), t2));
    tags.push((ModuleTag::new(128, name), ModuleTag::new(128, shim)));
    proof {
        let post = pairs_view(tags@);
        assert(post.len() == pre.len() + 1);
        assert(post[idx as int].0 == (TagView { tag_type: pre[idx as int].0.tag_type, buffer: renamedv }));
        assert(post[idx as int].1 == pre[idx as int].1);
        assert(forall|k: int| 0 <= k < pre.len() && k != idx ==> post[k] == pre[k]);
        assert(post.last() == (
            TagView { tag_type: 128, buffer: namev },
            TagView { tag_type: 128, buffer: shimv },
        ));
    }
    module.set_tags(tags);
    true
}



/// The decimal digit string of `n`, most significant digit first.
pub open spec fn decimal_digits(n: nat) -> Seq<u8>
    decreases n,
{
    if n < 10 {
        seq![(48 + n) as u8]
    } else {
        decimal_digits(n / 10) + seq![(48 + n % 10) as u8]
    }
}

pub proof fn lemma_decimal_digits(n: nat)
    ensures
        decimal_digits(n).len() > 0,
        forall|k: int|
            0 <= k < decimal_digits(n).len() ==> 48 <= #[trigger] decimal_digits(n)[k] <= 57,
    decreases n,
{
    if n >= 10 {
        lemma_decimal_digits(n / 10);
        let d = decimal_digits(n);
        let pre = decimal_digits(n / 10);
        assert forall|k: int| 0 <= k < d.len() implies 48 <= #[trigger] d[k] <= 57 by {
            if k < pre.len() {
                assert(d[k] == pre[k]);
            } else {
                assert(d[k] == (48 + n % 10) as u8);
            }
        }
    }
}

/// Formats `n` in decimal, the shape of the process-random rename suffix.
pub fn u32_decimal(n: u32) -> (r: Vec<u8>)
    ensures
        r@ == decimal_digits(n as nat),
{
    let mut rev: Vec<u8> = Vec::new();
    let mut m: u32 = n;
    proof {
        assert(Seq::<u8>::empty().reverse() =~= Seq::<u8>::empty());
        assert(decimal_digits(n as nat) + Seq::<u8>::empty() =~= decimal_digits(n as nat));
    }
    loop
        invariant_except_break
            rev@.len() == 0 ==> m == n,
            rev@.len() > 0 ==> m > 0,
            decimal_digits(n as nat) == decimal_digits(m as nat) + rev@.reverse(),
        ensures
            rev@.len() > 0,
            decimal_digits(n as nat) == rev@.reverse(),
        decreases m,
    {
        let ghost rev0 = rev@;
        let ghost mv = m;
        let digit: u8 = 48 + (m % 10) as u8;
        rev.push(digit);
        proof {
            assert(rev@ =~= rev0.push(digit));
            assert(rev@.reverse() =~= seq![digit] + rev0.reverse());
        }
        let m1 = m / 10;
        proof {
            if mv >= 10 {
                assert(decimal_digits(mv as nat) == decimal_digits((mv / 10) as nat) + seq![
                    digit,
                ]);
                assert((decimal_digits((mv / 10) as nat) + seq![digit]) + rev0.reverse()
                    =~= decimal_digits((mv / 10) as nat) + (seq![digit] + rev0.reverse()));
            } else {
                assert(decimal_digits(mv as nat) =~= seq![digit]);
                assert(decimal_digits(mv as nat) + rev0.reverse() =~= seq![digit]
                    + rev0.reverse());
            }
        }
        if m1 == 0 {
            break;
        }
        m = m1;
    }
    let mut r: Vec<u8> = Vec::new();
    let ghost rev0 = rev@;
    proof {
        assert(r@ + rev@.reverse() =~= rev@.reverse());
    }
    loop
        invariant
            rev0.reverse() == r@ + rev@.reverse(),
        ensures
            rev@.len() == 0,
            r@ == rev0.reverse(),
        decreases rev@.len(),
    {
        let ghost rev_before = rev@;
        let ghost rbefore = r@;
        match rev.pop() {
            Some(x) => {
                r.push(x);
                proof {
                    assert(rev_before =~= rev@.push(x));
                    assert forall|k: int|
                        0 <= k < rev_before.len() implies rev_before.reverse()[k] == (seq![x]
                        + rev@.reverse())[k] by {
                        assert(rev_before.reverse()[k] == rev_before[rev_before.len() - 1 - k]);
                        if k > 0 {
                            assert((seq![x] + rev@.reverse())[k] == rev@.reverse()[k - 1]);
                            assert(rev@.reverse()[k - 1] == rev@[rev@.len() - k]);
                            assert(rev_before[rev_before.len() - 1 - k] == rev@[rev@.len() - k]);
                        }
                    }
                    assert(rev_before.reverse() =~= seq![x] + rev@.reverse());
                    assert(rbefore + (seq![x] + rev@.reverse()) =~= (rbefore + seq![x])
                        + rev@.reverse());
                    assert(r@ =~= rbefore + seq![x]);
                }
            },
            None => {
                proof {
                    assert(rev@.reverse() =~= Seq::<u8>::empty());
                    assert(r@ + rev@.reverse() =~= r@);
                }
                break;
            },
        }
    }
    proof {
        assert(r@ == rev0.reverse());
    }
    r
}

/// Relies on `rand::random` for a process-random value; nothing is assumed
/// about which value comes back.
pub assume_specification<T>[ rand::random::<T> ]() -> (r: T)
    where
        rand::distr::StandardUniform: rand::distr::Distribution<T>,
;

/// Splices the loader shim into the module under a process-random decimal
/// suffix, so repeated injections do not collide on the alternate name.
/// The suffix is the decimal text of some 32-bit value, so a module whose
/// rewritten payloads fit the length field under every such suffix is
/// really injected.
pub fn inject_loader_random(
    module: &mut ComposerModule,
    asset_path: &Vec<u8>,
    loader: &Vec<u8>,
) -> (r: bool)
    requires
        old(module).wf(),
        find_byte(asset_path@, 46) is Some,
    ensures
        final(module).wf(),
        exists|n: u32|
            #[trigger] inject_post(
                old(module)@,
                final(module)@,
                asset_path@,
                loader@,
                decimal_digits(n as nat),
                r,
            ),
{
    let n: u32 = rand::random::<u32>();
    let suffix = u32_decimal(n);
    proof {
        lemma_decimal_digits(n as nat);
    }
    inject_loader(module, asset_path, loader, &suffix)
}


} // verus!
