//! Container codec: the bundled-script archive format.  A module is an
//! ordered sequence of tag pairs; the byte layout is a 4-byte magic, a 4-byte
//! little-endian section length (written, read back, but never cross-checked),
//! then per tag a 3-byte little-endian length, a 1-byte type, the payload,
//! and zero padding up to 4-byte alignment.

use vstd::prelude::*;
use vstd::utf8::{decode_utf8, valid_utf8};

verus! {

/// Spec-level value of one tag: its type byte and its payload.
pub ghost struct TagView {
    pub tag_type: u8,
    pub buffer: Seq<u8>,
}

/// One (type, payload) tag of the container format.
#[derive(Debug)]
pub struct ModuleTag {
    tag_type: u8,
    buffer: Vec<u8>,
}

impl View for ModuleTag {
    type V = TagView;

    closed spec fn view(&self) -> TagView {
        TagView { tag_type: self.tag_type, buffer: self.buffer@ }
    }
}

impl Clone for ModuleTag {
    fn clone(&self) -> (r: Self)
        ensures
            r@ == self@,
    {
        ModuleTag {
            tag_type: self.tag_type,
            buffer: vstd::slice::slice_to_vec(self.buffer.as_slice()),
        }
    }
}

impl ModuleTag {
    pub fn new(module_type: u8, buffer: Vec<u8>) -> (r: ModuleTag)
        ensures
            r@ == (TagView { tag_type: module_type, buffer: buffer@ }),
    {
        ModuleTag { tag_type: module_type, buffer }
    }

    /// The payload decoded as UTF-8 text, when it is valid UTF-8.
    pub fn to_string(&self) -> (r: Option<String>)
        ensures
            match r {
                Some(s) => valid_utf8(self@.buffer) && s@ == decode_utf8(self@.buffer),
                None => !valid_utf8(self@.buffer),
            },
    {
        bytes_to_string(&self.buffer)
    }

    pub fn get_tag_type(&self) -> (r: u8)
        ensures
            r == self@.tag_type,
    {
        self.tag_type
    }

    pub fn get_size(&self) -> (r: usize)
        ensures
            r == self@.buffer.len(),
    {
        self.buffer.len()
    }

    pub fn get_buffer(&self) -> (r: &Vec<u8>)
        ensures
            r@ == self@.buffer,
    {
        &self.buffer
    }

    pub fn set_buffer(&mut self, buffer: Vec<u8>)
        ensures
            final(self)@ == (TagView { tag_type: old(self)@.tag_type, buffer: buffer@ }),
    {
        self.buffer = buffer;
    }
}

/// Relies on `String::from_utf8`: it succeeds exactly on valid UTF-8 input
/// and returns that input decoded to text.
#[verifier::external_body]
fn bytes_to_string(v: &Vec<u8>) -> (r: Option<String>)
    ensures
        match r {
            Some(s) => valid_utf8(v@) && s@ == decode_utf8(v@),
            None => !valid_utf8(v@),
        },
{
    String::from_utf8(v.clone()).ok()
}

/// Rejection of a malformed container byte stream.
#[derive(Clone, Copy, PartialEq, Eq, Structural, Debug)]
pub enum CodecError {
    /// The stream is shorter than the magic, or the magic differs.
    InvalidMagic,
    /// A tag header or payload runs past the end of the stream.
    TruncatedTag,
    /// The stream holds an odd number of tags, which cannot be paired.
    OddTagCount,
}

/// Zero padding that brings a payload of `n` bytes to 4-byte alignment.
pub open spec fn pad_len(n: nat) -> nat {
    if n % 4 == 0 {
        0
    } else {
        (4 - n % 4) as nat
    }
}

pub open spec fn zero_pad(n: nat) -> Seq<u8> {
    Seq::new(n, |i: int| 0u8)
}

/// Three-byte little-endian encoding of `n`'s low 24 bits.
pub open spec fn le24(n: nat) -> Seq<u8> {
    seq![(n % 256) as u8, ((n / 256) % 256) as u8, ((n / 65536) % 256) as u8]
}

/// Four-byte little-endian encoding of `n`'s low 32 bits.
pub open spec fn le32(n: nat) -> Seq<u8> {
    seq![
        (n % 256) as u8,
        ((n / 256) % 256) as u8,
        ((n / 65536) % 256) as u8,
        ((n / 16777216) % 256) as u8,
    ]
}

pub open spec fn le24_val(b0: u8, b1: u8, b2: u8) -> nat {
    (b0 + 256 * b1 + 65536 * b2) as nat
}

pub open spec fn magic_bytes() -> Seq<u8> {
    seq![0x33u8, 0xc6u8, 0x00u8, 0x01u8]
}

/// One serialized tag: length, type, payload, alignment padding.
pub open spec fn serialize_tag(t: TagView) -> Seq<u8> {
    le24(t.buffer.len()) + seq![t.tag_type] + t.buffer + zero_pad(pad_len(t.buffer.len()))
}

/// The serialized tag section of a module: both tags of each pair in order.
pub open spec fn serialize_pairs(tags: Seq<(TagView, TagView)>) -> Seq<u8>
    decreases tags.len(),
{
    if tags.len() == 0 {
        Seq::empty()
    } else {
        serialize_tag(tags.first().0) + serialize_tag(tags.first().1) + serialize_pairs(
            tags.drop_first(),
        )
    }
}

/// The full serialized module: magic, section length (low 32 bits), tags.
pub open spec fn serialize_module(tags: Seq<(TagView, TagView)>) -> Seq<u8> {
    magic_bytes() + le32(serialize_pairs(tags).len()) + serialize_pairs(tags)
}

/// Reads consecutive tags until the stream is exhausted.  Padding after the
/// final tag may be cut short by the end of the stream; its bytes are
/// skipped, not inspected.
pub open spec fn parse_tags(s: Seq<u8>) -> Result<Seq<TagView>, CodecError>
    decreases s.len(),
{
    if s.len() == 0 {
        Ok(Seq::empty())
    } else if s.len() < 4 {
        Err(CodecError::TruncatedTag)
    } else {
        let size = le24_val(s[0], s[1], s[2]);
        let ty = s[3];
        if 4 + size > s.len() {
            Err(CodecError::TruncatedTag)
        } else {
            let content = s.subrange(4, 4 + size as int);
            let consumed = 4 + size + pad_len(size);
            let next = if consumed > s.len() {
                s.len()
            } else {
                consumed
            };
            match parse_tags(s.subrange(next as int, s.len() as int)) {
                Ok(rest) => Ok(seq![TagView { tag_type: ty, buffer: content }] + rest),
                Err(e) => Err(e),
            }
        }
    }
}

/// Groups a flat tag list into consecutive pairs; an odd count is a format
/// violation.
pub open spec fn pair_up(tags: Seq<TagView>) -> Result<Seq<(TagView, TagView)>, CodecError>
    decreases tags.len(),
{
    if tags.len() == 0 {
        Ok(Seq::empty())
    } else if tags.len() == 1 {
        Err(CodecError::OddTagCount)
    } else {
        match pair_up(tags.skip(2)) {
            Ok(rest) => Ok(seq![(tags[0], tags[1])] + rest),
            Err(e) => Err(e),
        }
    }
}

/// The meaning of a container byte stream: magic checked, declared section
/// length skipped unchecked, tags read and paired.
pub open spec fn parse_module_spec(s: Seq<u8>) -> Result<Seq<(TagView, TagView)>, CodecError> {
    if s.len() < 4 {
        Err(CodecError::InvalidMagic)
    } else if s.subrange(0, 4) != magic_bytes() {
        Err(CodecError::InvalidMagic)
    } else {
        let body = if s.len() <= 8 {
            Seq::<u8>::empty()
        } else {
            s.subrange(8, s.len() as int)
        };
        match parse_tags(body) {
            Ok(tags) => pair_up(tags),
            Err(e) => Err(e),
        }
    }
}


/// The views of a flat tag vector.
pub open spec fn tag_views(tags: Seq<ModuleTag>) -> Seq<TagView> {
    Seq::new(tags.len(), |i: int| tags[i]@)
}

pub open spec fn prepend_tags(pre: Seq<TagView>, r: Result<Seq<TagView>, CodecError>) -> Result<
    Seq<TagView>,
    CodecError,
> {
    match r {
        Ok(t) => Ok(pre + t),
        Err(e) => Err(e),
    }
}

pub open spec fn prepend_pairs(
    pre: Seq<(TagView, TagView)>,
    r: Result<Seq<(TagView, TagView)>, CodecError>,
) -> Result<Seq<(TagView, TagView)>, CodecError> {
    match r {
        Ok(t) => Ok(pre + t),
        Err(e) => Err(e),
    }
}

pub proof fn lemma_serialize_pairs_append(a: Seq<(TagView, TagView)>, b: Seq<(TagView, TagView)>)
    ensures
        serialize_pairs(a + b) == serialize_pairs(a) + serialize_pairs(b),
    decreases a.len(),
{
    if a.len() == 0 {
        assert(a + b =~= b);
        assert(serialize_pairs(a) + serialize_pairs(b) =~= serialize_pairs(b));
    } else {
        lemma_serialize_pairs_append(a.drop_first(), b);
        assert((a + b).drop_first() =~= a.drop_first() + b);
        assert((a + b).first() == a.first());
        assert(serialize_tag(a.first().0) + serialize_tag(a.first().1) + (serialize_pairs(
            a.drop_first(),
        ) + serialize_pairs(b)) =~= (serialize_tag(a.first().0) + serialize_tag(a.first().1)
            + serialize_pairs(a.drop_first())) + serialize_pairs(b));
    }
}

/// An ordered sequence of tag pairs, as parsed from one container stream.
#[derive(Debug)]
pub struct ComposerModule {
    tags: Vec<(ModuleTag, ModuleTag)>,
}

/// The pair views of a tag-pair vector.
pub open spec fn pairs_view(tags: Seq<(ModuleTag, ModuleTag)>) -> Seq<(TagView, TagView)> {
    Seq::new(tags.len(), |i: int| (tags[i].0@, tags[i].1@))
}

impl View for ComposerModule {
    type V = Seq<(TagView, TagView)>;

    closed spec fn view(&self) -> Seq<(TagView, TagView)> {
        pairs_view(self.tags@)
    }
}

/// Every payload's declared length fits the format's 24-bit length field.
pub open spec fn wf_pairs(tags: Seq<(TagView, TagView)>) -> bool {
    forall|i: int|
        0 <= i < tags.len() ==> (#[trigger] tags[i]).0.buffer.len() < 0x1000000
            && tags[i].1.buffer.len() < 0x1000000
}

impl ComposerModule {
    pub open spec fn wf(&self) -> bool {
        wf_pairs(self@)
    }

    pub fn get_tags(&self) -> (r: Vec<(ModuleTag, ModuleTag)>)
        ensures
            pairs_view(r@) == self@,
    {
        let mut r: Vec<(ModuleTag, ModuleTag)> = Vec::new();
        let n = self.tags.len();
        let mut i: usize = 0;
        while i < n
            invariant
                n == self.tags@.len(),
                i <= n,
                r@.len() == i,
                forall|k: int|
                    0 <= k < i ==> (#[trigger] r@[k]).0@ == self.tags@[k].0@ && r@[k].1@
                        == self.tags@[k].1@,
            decreases n - i,
        {
            let pair = (self.tags[i].0.clone(), self.tags[i].1.clone());
            r.push(pair);
            i += 1;
        }
        assert(pairs_view(r@) =~= self@);
        r
    }

    pub fn set_tags(&mut self, tags: Vec<(ModuleTag, ModuleTag)>)
        ensures
            final(self)@ == pairs_view(tags@),
    {
        self.tags = tags;
    }
}


impl ComposerModule {
    /// Reads a container byte stream into its tag pairs; the magic must
    /// match, every tag must lie inside the stream, and the tag count must
    /// be even.
    pub fn parse(buffer: Vec<u8>) -> (r: Result<ComposerModule, CodecError>)
        ensures
            match parse_module_spec(buffer@) {
                Ok(pairs) => r matches Ok(m) && m@ == pairs && m.wf(),
                Err(e) => r matches Err(a) && a == e,
            },
    {
        let n = buffer.len();
        if n < 4 {
            return Err(CodecError::InvalidMagic);
        }
        if !(buffer[0] == 0x33 && buffer[1] == 0xc6 && buffer[2] == 0x00 && buffer[3] == 0x01) {
            proof {
                let m = buffer@.subrange(0, 4);
                assert(m[0] == buffer@[0] && m[1] == buffer@[1] && m[2] == buffer@[2] && m[3]
                    == buffer@[3]);
                assert(m != magic_bytes());
            }
            return Err(CodecError::InvalidMagic);
        }
        proof {
            assert(buffer@.subrange(0, 4) =~= magic_bytes());
        }
        let ghost body: Seq<u8> = if buffer@.len() <= 8 {
            Seq::<u8>::empty()
        } else {
            buffer@.subrange(8, buffer@.len() as int)
        };
        let mut flat: Vec<ModuleTag> = Vec::new();
        if n > 8 {
            let mut offset: usize = 8;
            while offset < n
                invariant
                    n == buffer@.len(),
                    n > 8,
                    8 <= offset <= n,
                    buffer@.subrange(0, 4) == magic_bytes(),
                    body == buffer@.subrange(8, n as int),
                    prepend_tags(
                        tag_views(flat@),
                        parse_tags(buffer@.subrange(offset as int, n as int)),
                    ) == parse_tags(body),
                    forall|k: int|
                        0 <= k < flat@.len() ==> (#[trigger] flat@[k])@.buffer.len() < 0x1000000,
                decreases n - offset,
            {
                let ghost grem = buffer@.subrange(offset as int, n as int);
                let rem = n - offset;
                if rem < 4 {
                    proof {
                        assert(parse_tags(grem) == Err::<Seq<TagView>, CodecError>(
                            CodecError::TruncatedTag,
                        ));
                    }
                    return Err(CodecError::TruncatedTag);
                }
                let b0 = buffer[offset];
                let b1 = buffer[offset + 1];
                let b2 = buffer[offset + 2];
                let ty = buffer[offset + 3];
                let size: usize = b0 as usize + 256 * (b1 as usize) + 65536 * (b2 as usize);
                proof {
                    assert(grem[0] == b0 && grem[1] == b1 && grem[2] == b2 && grem[3] == ty);
                    assert(size == le24_val(b0, b1, b2));
                }
                if size > rem - 4 {
                    proof {
                        assert(parse_tags(grem) == Err::<Seq<TagView>, CodecError>(
                            CodecError::TruncatedTag,
                        ));
                    }
                    return Err(CodecError::TruncatedTag);
                }
                let content = vstd::slice::slice_to_vec(
                    vstd::slice::slice_subrange(buffer.as_slice(), offset + 4, offset + 4 + size),
                );
                proof {
                    assert(content@ =~= grem.subrange(4, 4 + size as int));
                }
                let ghost tagv = TagView { tag_type: ty, buffer: content@ };
                let ghost flat_before = flat@;
                flat.push(ModuleTag { tag_type: ty, buffer: content });
                let pad: usize = if size % 4 == 0 {
                    0
                } else {
                    4 - size % 4
                };
                let base = offset + 4 + size;
                let next = if pad > n - base {
                    n
                } else {
                    base + pad
                };
                proof {
                    assert(pad == pad_len(size as nat));
                    let consumed = 4 + (size as nat) + pad_len(size as nat);
                    let next_rel = if consumed > grem.len() {
                        grem.len()
                    } else {
                        consumed
                    };
                    assert(next == offset + next_rel);
                    assert(buffer@.subrange(next as int, n as int) =~= grem.subrange(
                        next_rel as int,
                        grem.len() as int,
                    ));
                    assert(parse_tags(grem) == prepend_tags(
                        seq![tagv],
                        parse_tags(buffer@.subrange(next as int, n as int)),
                    ));
                    assert(tag_views(flat@) =~= tag_views(flat_before) + seq![tagv]);
                    match parse_tags(buffer@.subrange(next as int, n as int)) {
                        Ok(rest) => {
                            assert((tag_views(flat_before) + seq![tagv]) + rest =~= tag_views(
                                flat_before,
                            ) + (seq![tagv] + rest));
                        },
                        Err(_) => {},
                    }
                }
                offset = next;
            }
            proof {
                assert(buffer@.subrange(n as int, n as int) =~= Seq::<u8>::empty());
                assert(parse_tags(body) == Ok::<Seq<TagView>, CodecError>(tag_views(flat@)
                    + Seq::empty()));
                assert(tag_views(flat@) + Seq::<TagView>::empty() =~= tag_views(flat@));
            }
        } else {
            proof {
                assert(tag_views(flat@) + Seq::<TagView>::empty() =~= tag_views(flat@));
                assert(tag_views(flat@) =~= Seq::<TagView>::empty());
            }
        }
        // here parse_tags(body) == Ok(tag_views(flat@))
        let ghost flat0 = tag_views(flat@);
        if flat.len() % 2 != 0 {
            proof {
                lemma_pair_up_parity(flat0);
            }
            return Err(CodecError::OddTagCount);
        }
        let mut pairs: Vec<(ModuleTag, ModuleTag)> = Vec::new();
        while flat.len() >= 2
            invariant
                flat@.len() % 2 == 0,
                prepend_pairs(pairs_view(pairs@), pair_up(tag_views(flat@))) == pair_up(flat0),
                forall|k: int|
                    0 <= k < flat@.len() ==> (#[trigger] flat@[k])@.buffer.len() < 0x1000000,
                forall|k: int|
                    0 <= k < pairs@.len() ==> (#[trigger] pairs@[k]).0@.buffer.len() < 0x1000000
                        && pairs@[k].1@.buffer.len() < 0x1000000,
            decreases flat@.len(),
        {
            let ghost flat_before = flat@;
            let ghost pairs_before = pairs@;
            let t1 = flat.remove(0);
            let t2 = flat.remove(0);
            pairs.push((t1, t2));
            proof {
                assert(tag_views(flat@) =~= tag_views(flat_before).skip(2));
                assert(tag_views(flat_before)[0] == t1@);
                assert(tag_views(flat_before)[1] == t2@);
                assert(pairs_view(pairs@) =~= pairs_view(pairs_before) + seq![(t1@, t2@)]);
                match pair_up(tag_views(flat@)) {
                    Ok(rest) => {
                        assert((pairs_view(pairs_before) + seq![(t1@, t2@)]) + rest =~= pairs_view(
                            pairs_before,
                        ) + (seq![(t1@, t2@)] + rest));
                    },
                    Err(_) => {},
                }
            }
        }
        proof {
            assert(tag_views(flat@) =~= Seq::<TagView>::empty());
            assert(pairs_view(pairs@) + Seq::<(TagView, TagView)>::empty() =~= pairs_view(pairs@));
        }
        Ok(ComposerModule { tags: pairs })
    }

    /// Writes the module back to bytes in the exact layout `parse` reads.
    /// The written section length is the low 32 bits of the true length.
    pub fn to_bytes(&self) -> (r: Vec<u8>)
        requires
            self.wf(),
        ensures
            r@ == serialize_module(self@),
    {
        let mut tag_buffer: Vec<u8> = Vec::new();
        let n = self.tags.len();
        let mut i: usize = 0;
        while i < n
            invariant
                n == self.tags@.len(),
                i <= n,
                self.wf(),
                tag_buffer@ == serialize_pairs(self@.take(i as int)),
            decreases n - i,
        {
            proof {
                assert(self@[i as int].0 == self.tags@[i as int].0@);
                assert(self@[i as int].0.buffer.len() < 0x1000000);
                assert(self@[i as int].1.buffer.len() < 0x1000000);
            }
            write_tag(&mut tag_buffer, &self.tags[i].0);
            write_tag(&mut tag_buffer, &self.tags[i].1);
            proof {
                let taken = self@.take(i as int);
                let taken1 = self@.take(i + 1);
                let pair = self@[i as int];
                assert(taken1 =~= taken + seq![pair]);
                lemma_serialize_pairs_append(taken, seq![pair]);
                assert(seq![pair].drop_first() =~= Seq::<(TagView, TagView)>::empty());
                assert(seq![pair].first() == pair);
                assert(serialize_pairs(Seq::<(TagView, TagView)>::empty()) =~= Seq::<u8>::empty());
                assert(serialize_pairs(seq![pair]) =~= serialize_tag(pair.0) + serialize_tag(
                    pair.1,
                ));
                assert(tag_buffer@ =~= serialize_pairs(taken1));
            }
            i += 1;
        }
        proof {
            assert(self@.take(n as int) =~= self@);
        }
        let mut out: Vec<u8> = Vec::new();
        out.push(0x33);
        out.push(0xc6);
        out.push(0x00);
        out.push(0x01);
        let l = tag_buffer.len();
        out.push((l % 256) as u8);
        out.push(((l / 256) % 256) as u8);
        out.push(((l / 65536) % 256) as u8);
        out.push(((l / 16777216) % 256) as u8);
        out.append(&mut tag_buffer);
        proof {
            assert(out@ =~= serialize_module(self@));
        }
        out
    }
}

fn write_tag(out: &mut Vec<u8>, tag: &ModuleTag)
    requires
        tag@.buffer.len() < 0x1000000,
    ensures
        final(out)@ == old(out)@ + serialize_tag(tag@),
{
    let ghost base = out@;
    let size = tag.buffer.len();
    out.push((size % 256) as u8);
    out.push(((size / 256) % 256) as u8);
    out.push(((size / 65536) % 256) as u8);
    out.push(tag.tag_type);
    let ghost header = base + le24(size as nat) + seq![tag@.tag_type];
    assert(out@ =~= header);
    let mut k: usize = 0;
    while k < size
        invariant
            size == tag@.buffer.len(),
            k <= size,
            out@ == header + tag@.buffer.take(k as int),
        decreases size - k,
    {
        out.push(tag.buffer[k]);
        proof {
            assert(out@ =~= header + tag@.buffer.take(k + 1));
        }
        k += 1;
    }
    proof {
        assert(tag@.buffer.take(size as int) =~= tag@.buffer);
    }
    if size % 4 != 0 {
        let pad = 4 - size % 4;
        let mut p: usize = 0;
        while p < pad
            invariant
                pad == pad_len(tag@.buffer.len()),
                p <= pad,
                out@ == header + tag@.buffer + zero_pad(p as nat),
            decreases pad - p,
        {
            out.push(0);
            proof {
                assert(out@ =~= header + tag@.buffer + zero_pad((p + 1) as nat));
            }
            p += 1;
        }
    }
    proof {
        assert(out@ =~= old(out)@ + serialize_tag(tag@));
    }
}

/// `pair_up` succeeds exactly on even-length tag lists.
pub proof fn lemma_pair_up_parity(tags: Seq<TagView>)
    ensures
        tags.len() % 2 == 0 <==> pair_up(tags) is Ok,
        tags.len() % 2 == 1 ==> pair_up(tags) == Err::<Seq<(TagView, TagView)>, CodecError>(
            CodecError::OddTagCount,
        ),
    decreases tags.len(),
{
    if tags.len() >= 2 {
        lemma_pair_up_parity(tags.skip(2));
    }
}



proof fn lemma_le24_decompose(x: u32)
    requires
        x < 0x1000000,
    ensures
        x == (x % 256) + 256 * ((x / 256) % 256) + 65536 * ((x / 65536) % 256),
{
    assert(x < 0x1000000 ==> x == (x % 256) + 256 * ((x / 256) % 256) + 65536 * ((x / 65536)
        % 256)) by (bit_vector);
}

/// A serialized tag followed by anything parses back to that tag followed by
/// whatever the remainder parses to.
pub proof fn lemma_parse_serialized_tag(t: TagView, rest: Seq<u8>)
    requires
        t.buffer.len() < 0x1000000,
    ensures
        parse_tags(serialize_tag(t) + rest) == prepend_tags(seq![t], parse_tags(rest)),
{
    let s = serialize_tag(t) + rest;
    let size = t.buffer.len();
    let stlen = 4 + size + pad_len(size);
    assert(serialize_tag(t).len() == stlen);
    assert(s.len() == stlen + rest.len());
    assert(s[0] == (size % 256) as u8);
    assert(s[1] == ((size / 256) % 256) as u8);
    assert(s[2] == ((size / 65536) % 256) as u8);
    assert(s[3] == t.tag_type);
    lemma_le24_decompose(size as u32);
    assert(le24_val(s[0], s[1], s[2]) == size);
    assert(4 + size <= s.len());
    assert(s.subrange(4, 4 + size as int) =~= t.buffer);
    assert(TagView { tag_type: s[3], buffer: s.subrange(4, 4 + size as int) } == t);
    let consumed = 4 + size + pad_len(size);
    assert(consumed <= s.len());
    assert(s.subrange(consumed as int, s.len() as int) =~= rest);
}

/// The flat tag list of a pair list, in pair order.
pub open spec fn flatten_pairs(tags: Seq<(TagView, TagView)>) -> Seq<TagView>
    decreases tags.len(),
{
    if tags.len() == 0 {
        Seq::empty()
    } else {
        seq![tags.first().0, tags.first().1] + flatten_pairs(tags.drop_first())
    }
}

pub proof fn lemma_parse_serialize_pairs(tags: Seq<(TagView, TagView)>)
    requires
        wf_pairs(tags),
    ensures
        parse_tags(serialize_pairs(tags)) == Ok::<Seq<TagView>, CodecError>(flatten_pairs(tags)),
    decreases tags.len(),
{
    if tags.len() == 0 {
        assert(serialize_pairs(tags) =~= Seq::<u8>::empty());
        assert(flatten_pairs(tags) =~= Seq::<TagView>::empty());
    } else {
        let p = tags.first();
        let rest = tags.drop_first();
        assert(wf_pairs(rest)) by {
            assert(forall|i: int|
                0 <= i < rest.len() ==> rest[i] == #[trigger] tags[i + 1]);
        }
        assert(tags[0] == p);
        lemma_parse_serialize_pairs(rest);
        let tail = serialize_tag(p.1) + serialize_pairs(rest);
        assert(serialize_pairs(tags) =~= serialize_tag(p.0) + tail);
        lemma_parse_serialized_tag(p.1, serialize_pairs(rest));
        lemma_parse_serialized_tag(p.0, tail);
        assert(parse_tags(serialize_pairs(tags)) == prepend_tags(
            seq![p.0],
            prepend_tags(seq![p.1], Ok(flatten_pairs(rest))),
        ));
        assert(seq![p.0] + (seq![p.1] + flatten_pairs(rest)) =~= seq![p.0, p.1] + flatten_pairs(
            rest,
        ));
    }
}

pub proof fn lemma_pair_up_flatten(tags: Seq<(TagView, TagView)>)
    ensures
        pair_up(flatten_pairs(tags)) == Ok::<Seq<(TagView, TagView)>, CodecError>(tags),
    decreases tags.len(),
{
    if tags.len() == 0 {
        assert(flatten_pairs(tags) =~= Seq::<TagView>::empty());
        assert(pair_up(Seq::<TagView>::empty()) == Ok::<Seq<(TagView, TagView)>, CodecError>(
            Seq::empty(),
        ));
        assert(tags =~= Seq::<(TagView, TagView)>::empty());
    } else {
        let p = tags.first();
        let rest = tags.drop_first();
        lemma_pair_up_flatten(rest);
        let flat = flatten_pairs(tags);
        assert(flat.len() >= 2);
        assert(flat[0] == p.0);
        assert(flat[1] == p.1);
        assert(flat.skip(2) =~= flatten_pairs(rest));
        assert(flat.len() != 1);
        assert(pair_up(flat) == match pair_up(flat.skip(2)) {
            Ok(r2) => Ok::<Seq<(TagView, TagView)>, CodecError>(seq![(flat[0], flat[1])] + r2),
            Err(e) => Err(e),
        });
        assert((flat[0], flat[1]) == (p.0, p.1));
        assert(seq![(p.0, p.1)] + rest =~= tags);
    }
}

/// The codec round trip: a module whose payload sizes fit the 24-bit length
/// field parses back from its own serialization to exactly its tag pairs,
/// with types, payload bytes and pair order preserved.
pub proof fn lemma_codec_round_trip(tags: Seq<(TagView, TagView)>)
    requires
        wf_pairs(tags),
    ensures
        parse_module_spec(serialize_module(tags)) == Ok::<Seq<(TagView, TagView)>, CodecError>(
            tags,
        ),
{
    let sp = serialize_pairs(tags);
    let s = serialize_module(tags);
    assert(s.len() == 8 + sp.len());
    assert(s.subrange(0, 4) =~= magic_bytes());
    if sp.len() == 0 {
        assert(tags.len() == 0) by {
            if tags.len() != 0 {
                assert(serialize_tag(tags.first().0).len() >= 4);
            }
        }
        assert(parse_tags(Seq::<u8>::empty()) == Ok::<Seq<TagView>, CodecError>(Seq::empty()));
        assert(tags =~= Seq::<(TagView, TagView)>::empty());
    } else {
        assert(s.subrange(8, s.len() as int) =~= sp);
        lemma_parse_serialize_pairs(tags);
        lemma_pair_up_flatten(tags);
    }
}


} // verus!
