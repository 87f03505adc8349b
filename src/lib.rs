//! A compact archive format: a small container of typed, length-prefixed
//! sections, and a codec that flattens a directory tree into one section's
//! payload as a pre-order stream of entries.
use vstd::prelude::*;

pub mod files;
pub mod tree;
pub mod wire;

use crate::wire::{
    FormatError, be32, from_be32, lemma_be32_round_trip, read_be32, write_be32, write_bytes,
};

verus! {

/// The four bytes that every archive starts with: "ntar".
pub open spec fn magic_bytes() -> Seq<u8> {
    seq![0x6Eu8, 0x74u8, 0x61u8, 0x72u8]
}

/// A value that can be written out as bytes.
pub trait Serialize {
    /// Whether the value can be encoded (its lengths fit their fields).
    spec fn writable(&self) -> bool;

    /// The bytes that encode the value.
    spec fn encoding(&self) -> Seq<u8>;

    fn write(&self, out: &mut Vec<u8>)
        requires
            self.writable(),
        ensures
            final(out)@ == old(out)@ + self.encoding(),
    ;
}

/// A value that can be decoded from the front of a buffer, borrowing from it.
pub trait Deserialize<'a>: Sized + View {
    /// What decoding `bytes` gives: the value's model and the bytes consumed,
    /// or the error.
    spec fn decoding(bytes: Seq<u8>) -> Result<(Self::V, nat), FormatError>;

    fn read(bytes: &'a [u8]) -> (r: Result<(Self, usize), FormatError>)
        ensures
            Self::decoding(bytes@) == (match r {
                Ok((v, n)) => Ok((v@, n as nat)),
                Err(e) => Err(e),
            }),
    ;
}

/// A typed block of opaque bytes inside a [`File`].
#[derive(Clone, Copy, Debug)]
pub struct Section<'a> {
    pub ty: u32,
    pub metadata: u32,
    pub bytes: &'a [u8],
}

/// The model of a [`Section`]: its two words and its payload.
pub struct SectionView {
    pub ty: u32,
    pub metadata: u32,
    pub bytes: Seq<u8>,
}

impl<'a> View for Section<'a> {
    type V = SectionView;

    open spec fn view(&self) -> SectionView {
        SectionView { ty: self.ty, metadata: self.metadata, bytes: self.bytes@ }
    }
}

/// A section's payload length fits its 32-bit length field.
pub open spec fn section_writable(s: SectionView) -> bool {
    s.bytes.len() <= u32::MAX
}

/// type, metadata, payload length (each big-endian), then the payload.
pub open spec fn section_bytes(s: SectionView) -> Seq<u8> {
    be32(s.ty) + be32(s.metadata) + be32(s.bytes.len() as u32) + s.bytes
}

/// Decoding one section from the front of `b`.
pub open spec fn parse_section(b: Seq<u8>) -> Result<(SectionView, nat), FormatError> {
    if b.len() < 12 {
        Err(FormatError::Truncated)
    } else {
        let len = from_be32(b.subrange(8, 12));
        if b.len() - 12 < len {
            Err(FormatError::Truncated)
        } else {
            Ok(
                (
                    SectionView {
                        ty: from_be32(b.subrange(0, 4)),
                        metadata: from_be32(b.subrange(4, 8)),
                        bytes: b.subrange(12, 12 + len),
                    },
                    (12 + len) as nat,
                ),
            )
        }
    }
}

impl<'a> Serialize for Section<'a> {
    open spec fn writable(&self) -> bool {
        section_writable(self@)
    }

    open spec fn encoding(&self) -> Seq<u8> {
        section_bytes(self@)
    }

    fn write(&self, out: &mut Vec<u8>) {
        write_be32(self.ty, out);
        write_be32(self.metadata, out);
        write_be32(self.bytes.len() as u32, out);
        write_bytes(self.bytes, out);
        assert(out@ =~= old(out)@ + section_bytes(self@));
    }
}

impl<'a> Deserialize<'a> for Section<'a> {
    open spec fn decoding(bytes: Seq<u8>) -> Result<(SectionView, nat), FormatError> {
        parse_section(bytes)
    }

    fn read(bytes: &'a [u8]) -> (r: Result<(Self, usize), FormatError>) {
        if bytes.len() < 12 {
            return Err(FormatError::Truncated);
        }
        let ty = read_be32(bytes, 0);
        let metadata = read_be32(bytes, 4);
        let len = read_be32(bytes, 8);
        if bytes.len() - 12 < len as usize {
            return Err(FormatError::Truncated);
        }
        let end = 12 + len as usize;
        let payload = vstd::slice::slice_subrange(bytes, 12, end);
        Ok((Section { ty, metadata, bytes: payload }, end))
    }
}

/// An archive: magic, version triple and an ordered list of sections.
#[derive(Debug, Clone)]
pub struct File<'a> {
    pub magic: [u8; 4],
    pub version_major: u8,
    pub version_minor: u8,
    pub version_patch: u8,
    pub sections: Vec<Section<'a>>,
}

/// The model of a [`File`].
pub struct FileView {
    pub magic: Seq<u8>,
    pub version_major: u8,
    pub version_minor: u8,
    pub version_patch: u8,
    pub sections: Seq<SectionView>,
}

/// The models of a list of sections.
pub open spec fn section_views<'a>(ss: Seq<Section<'a>>) -> Seq<SectionView> {
    ss.map_values(|s: Section<'a>| s@)
}

impl<'a> View for File<'a> {
    type V = FileView;

    open spec fn view(&self) -> FileView {
        FileView {
            magic: self.magic@,
            version_major: self.version_major,
            version_minor: self.version_minor,
            version_patch: self.version_patch,
            sections: section_views(self.sections@),
        }
    }
}

/// The sections encoded one after another, with nothing between them.
pub open spec fn sections_bytes(ss: Seq<SectionView>) -> Seq<u8>
    decreases ss.len(),
{
    if ss.len() == 0 {
        Seq::empty()
    } else {
        section_bytes(ss[0]) + sections_bytes(ss.drop_first())
    }
}

/// Decoding sections until the end of `b`.
pub open spec fn parse_sections(b: Seq<u8>) -> Result<Seq<SectionView>, FormatError>
    decreases b.len(),
{
    if b.len() == 0 {
        Ok(Seq::empty())
    } else {
        match parse_section(b) {
            Err(e) => Err(e),
            Ok((s, n)) => match parse_sections(b.skip(n as int)) {
                Ok(rest) => Ok(seq![s] + rest),
                Err(e) => Err(e),
            },
        }
    }
}

/// Every section of the list fits its length field.
pub open spec fn sections_writable(ss: Seq<SectionView>) -> bool {
    forall|i: int| 0 <= i < ss.len() ==> section_writable(#[trigger] ss[i])
}

/// magic, a zero byte, major, minor, patch, then the sections.
pub open spec fn file_bytes(f: FileView) -> Seq<u8> {
    f.magic + seq![0u8, f.version_major, f.version_minor, f.version_patch] + sections_bytes(
        f.sections,
    )
}

/// Decoding a whole buffer as an archive; on success every byte is consumed.
pub open spec fn parse_file(b: Seq<u8>) -> Result<(FileView, nat), FormatError> {
    if b.len() < 4 {
        Err(FormatError::Truncated)
    } else if b.subrange(0, 4) != magic_bytes() {
        Err(FormatError::BadMagic)
    } else if b.len() < 8 {
        Err(FormatError::Truncated)
    } else {
        match parse_sections(b.skip(8)) {
            Err(e) => Err(e),
            Ok(ss) => Ok(
                (
                    FileView {
                        magic: b.subrange(0, 4),
                        version_major: b[5],
                        version_minor: b[6],
                        version_patch: b[7],
                        sections: ss,
                    },
                    b.len(),
                ),
            ),
        }
    }
}

pub proof fn lemma_sections_bytes_append(a: Seq<SectionView>, b: Seq<SectionView>)
    ensures
        sections_bytes(a + b) == sections_bytes(a) + sections_bytes(b),
    decreases a.len(),
{
    if a.len() == 0 {
        assert(a + b =~= b);
        assert(sections_bytes(a) + sections_bytes(b) =~= sections_bytes(b));
    } else {
        assert((a + b).drop_first() =~= a.drop_first() + b);
        lemma_sections_bytes_append(a.drop_first(), b);
        assert(sections_bytes(a + b) =~= sections_bytes(a) + sections_bytes(b));
    }
}

proof fn lemma_parse_sections_step(b: Seq<u8>, k: int)
    requires
        0 <= k < b.len(),
        parse_section(b.skip(k)) is Ok,
    ensures
        ({
            let (s, n) = parse_section(b.skip(k)).unwrap();
            &&& k + n <= b.len()
            &&& b.skip(k).skip(n as int) =~= b.skip(k + n)
            &&& parse_sections(b.skip(k)) == match parse_sections(b.skip(k + n)) {
                Ok(rest) => Ok(seq![s] + rest),
                Err(e) => Err(e),
            }
        }),
{
    let bk = b.skip(k);
    let (s, n) = parse_section(bk).unwrap();
    assert(bk.skip(n as int) =~= b.skip(k + n));
    assert(bk.len() > 0);
}

impl<'a> Serialize for File<'a> {
    open spec fn writable(&self) -> bool {
        sections_writable(self@.sections)
    }

    open spec fn encoding(&self) -> Seq<u8> {
        file_bytes(self@)
    }

    fn write(&self, out: &mut Vec<u8>) {
        write_bytes(self.magic.as_slice(), out);
        out.push(0);
        out.push(self.version_major);
        out.push(self.version_minor);
        out.push(self.version_patch);
        let ghost head = out@;
        let ghost views = section_views(self.sections@);
        assert(head =~= old(out)@ + self.magic@ + seq![
            0u8,
            self.version_major,
            self.version_minor,
            self.version_patch,
        ]);
        let mut i: usize = 0;
        while i < self.sections.len()
            invariant
                i <= self.sections@.len(),
                views == section_views(self.sections@),
                sections_writable(views),
                out@ == head + sections_bytes(views.take(i as int)),
            decreases self.sections@.len() - i,
        {
            let ghost before = out@;
            assert(section_writable(views[i as int]));
            self.sections[i].write(out);
            proof {
                assert(views.take(i + 1) =~= views.take(i as int) + seq![views[i as int]]);
                lemma_sections_bytes_append(views.take(i as int), seq![views[i as int]]);
                assert(seq![views[i as int]].drop_first() =~= Seq::<SectionView>::empty());
                assert(sections_bytes(Seq::<SectionView>::empty()) =~= Seq::<u8>::empty());
                assert(sections_bytes(seq![views[i as int]]) =~= section_bytes(views[i as int]));
            }
            i += 1;
        }
        assert(views.take(i as int) =~= views);
        assert(out@ =~= old(out)@ + file_bytes(self@));
    }
}

impl<'a> Deserialize<'a> for File<'a> {
    open spec fn decoding(bytes: Seq<u8>) -> Result<(FileView, nat), FormatError> {
        parse_file(bytes)
    }

    fn read(bytes: &'a [u8]) -> (r: Result<(Self, usize), FormatError>) {
        if bytes.len() < 4 {
            return Err(FormatError::Truncated);
        }
        let magic: [u8; 4] = [bytes[0], bytes[1], bytes[2], bytes[3]];
        if !(magic[0] == 0x6E && magic[1] == 0x74 && magic[2] == 0x61 && magic[3] == 0x72) {
            assert(bytes@.subrange(0, 4) != magic_bytes()) by {
                if bytes@.subrange(0, 4) == magic_bytes() {
                    assert(bytes@.subrange(0, 4)[0] == bytes@[0]);
                    assert(bytes@.subrange(0, 4)[1] == bytes@[1]);
                    assert(bytes@.subrange(0, 4)[2] == bytes@[2]);
                    assert(bytes@.subrange(0, 4)[3] == bytes@[3]);
                }
            }
            return Err(FormatError::BadMagic);
        }
        assert(magic@ =~= bytes@.subrange(0, 4));
        assert(magic@ =~= magic_bytes());
        if bytes.len() < 8 {
            return Err(FormatError::Truncated);
        }
        let version_major = bytes[5];
        let version_minor = bytes[6];
        let version_patch = bytes[7];
        let mut ptr: usize = 8;
        let mut sections: Vec<Section<'a>> = Vec::new();
        while ptr < bytes.len()
            invariant
                8 <= ptr <= bytes@.len(),
                magic@ == bytes@.subrange(0, 4),
                magic@ == magic_bytes(),
                parse_sections(bytes@.skip(8)) == match parse_sections(bytes@.skip(ptr as int)) {
                    Ok(rest) => Ok(section_views(sections@) + rest),
                    Err(e) => Err(e),
                },
            decreases bytes@.len() - ptr,
        {
            let rest = vstd::slice::slice_subrange(bytes, ptr, bytes.len());
            assert(rest@ =~= bytes@.skip(ptr as int));
            match Section::read(rest) {
                Err(e) => {
                    assert(parse_sections(bytes@.skip(ptr as int)) == Err::<Seq<SectionView>, FormatError>(e));
                    assert(parse_sections(bytes@.skip(8)) == Err::<Seq<SectionView>, FormatError>(e));
                    assert(parse_file(bytes@) == Err::<(FileView, nat), FormatError>(e));
                    return Err(e);
                },
                Ok((section, incr)) => {
                    proof {
                        assert(parse_section(bytes@.skip(ptr as int)) == Ok::<(SectionView, nat), FormatError>((section@, incr as nat)));
                        lemma_parse_sections_step(bytes@, ptr as int);
                    }
                    let ghost old_sections = sections@;
                    sections.push(section);
                    assert(section_views(sections@) =~= section_views(old_sections) + seq![
                        section@,
                    ]);
                    ptr = ptr + incr;
                    assert(parse_sections(bytes@.skip(8)) == match parse_sections(bytes@.skip(ptr as int)) {
                        Ok(rest) => Ok(section_views(sections@) + rest),
                        Err(e) => Err(e),
                    }) by {
                        match parse_sections(bytes@.skip(ptr as int)) {
                            Ok(rest) => {
                                assert(section_views(old_sections) + (seq![section@] + rest) =~= section_views(sections@) + rest);
                            },
                            Err(e) => {},
                        }
                    }
                },
            }
        }
        assert(bytes@.skip(ptr as int).len() == 0);
        assert(section_views(sections@) + Seq::<SectionView>::empty() =~= section_views(
            sections@,
        ));
        Ok(
            (
                File { magic, version_major, version_minor, version_patch, sections },
                ptr,
            ),
        )
    }
}

impl<'a> File<'a> {
    /// An archive of version 0.0.0 holding `sections`.
    pub fn new(sections: Vec<Section<'a>>) -> (r: File<'a>)
        ensures
            r@.magic == magic_bytes(),
            r@.version_major == 0,
            r@.version_minor == 0,
            r@.version_patch == 0,
            r.sections@ == sections@,
    {
        let f = File {
            magic: [0x6E, 0x74, 0x61, 0x72],
            version_major: 0,
            version_minor: 0,
            version_patch: 0,
            sections,
        };
        assert(f.magic@ =~= magic_bytes());
        f
    }

    /// Checks that the archive carries the format's magic bytes.
    pub fn sanity_check(&self) -> (r: Result<(), FormatError>)
        ensures
            r is Ok <==> self.magic@ == magic_bytes(),
            r is Err ==> r == Err::<(), FormatError>(FormatError::BadMagic),
    {
        if self.magic[0] == 0x6E && self.magic[1] == 0x74 && self.magic[2] == 0x61 && self.magic[3]
            == 0x72 {
            assert(self.magic@ =~= magic_bytes());
            Ok(())
        } else {
            assert(self.magic@[0] == self.magic[0]);
            Err(FormatError::BadMagic)
        }
    }
}

proof fn lemma_section_round_trip(s: SectionView, tail: Seq<u8>)
    requires
        section_writable(s),
    ensures
        parse_section(section_bytes(s) + tail) == Ok::<(SectionView, nat), FormatError>(
            (s, section_bytes(s).len()),
        ),
        section_bytes(s).len() == 12 + s.bytes.len(),
{
    let b = section_bytes(s) + tail;
    lemma_be32_round_trip(s.ty);
    lemma_be32_round_trip(s.metadata);
    lemma_be32_round_trip(s.bytes.len() as u32);
    assert(b.subrange(0, 4) =~= be32(s.ty));
    assert(b.subrange(4, 8) =~= be32(s.metadata));
    assert(b.subrange(8, 12) =~= be32(s.bytes.len() as u32));
    assert(b.subrange(12, (12 + s.bytes.len()) as int) =~= s.bytes);
}

proof fn lemma_sections_round_trip(ss: Seq<SectionView>)
    requires
        sections_writable(ss),
    ensures
        parse_sections(sections_bytes(ss)) == Ok::<Seq<SectionView>, FormatError>(ss),
    decreases ss.len(),
{
    if ss.len() == 0 {
        assert(sections_bytes(ss) =~= Seq::<u8>::empty());
        assert(ss =~= Seq::<SectionView>::empty());
    } else {
        let rest = ss.drop_first();
        assert(section_writable(ss[0]));
        assert(sections_writable(rest)) by {
            assert forall|i: int| 0 <= i < rest.len() implies section_writable(#[trigger] rest[i]) by {
                assert(rest[i] == ss[i + 1]);
            }
        }
        let b = sections_bytes(ss);
        lemma_section_round_trip(ss[0], sections_bytes(rest));
        assert(b.skip(section_bytes(ss[0]).len() as int) =~= sections_bytes(rest));
        lemma_sections_round_trip(rest);
        assert(seq![ss[0]] + rest =~= ss);
    }
}

/// Round trip of an archive: encoding an archive with the format's magic and
/// any number of sections, then decoding the bytes, gives the same archive
/// back, and the decoder consumes exactly the encoded length.
pub proof fn lemma_file_round_trip(f: FileView)
    requires
        f.magic == magic_bytes(),
        sections_writable(f.sections),
    ensures
        parse_file(file_bytes(f)) == Ok::<(FileView, nat), FormatError>(
            (f, file_bytes(f).len()),
        ),
{
    let b = file_bytes(f);
    assert(b.subrange(0, 4) =~= f.magic);
    assert(b.skip(8) =~= sections_bytes(f.sections));
    lemma_sections_round_trip(f.sections);
}

/// Decoding an archive whose first four bytes are not the format's magic
/// fails with `BadMagic`, whatever follows them.
pub proof fn lemma_bad_magic(b: Seq<u8>)
    requires
        b.len() >= 4,
        b.subrange(0, 4) != magic_bytes(),
    ensures
        parse_file(b) == Err::<(FileView, nat), FormatError>(FormatError::BadMagic),
{
}

proof fn lemma_sections_prefix(ss: Seq<SectionView>, n: int)
    requires
        sections_writable(ss),
        0 <= n < sections_bytes(ss).len(),
        forall|k: int| 0 <= k <= ss.len() ==> n != #[trigger] sections_bytes(ss.take(k)).len(),
    ensures
        parse_sections(sections_bytes(ss).take(n)) == Err::<Seq<SectionView>, FormatError>(
            FormatError::Truncated,
        ),
    decreases ss.len(),
{
    assert(ss.take(0) =~= Seq::<SectionView>::empty());
    assert(sections_bytes(ss.take(0)).len() == 0);
    if ss.len() == 0 {
        assert(sections_bytes(ss) =~= Seq::<u8>::empty());
    } else {
        let s0 = ss[0];
        let rest = ss.drop_first();
        let len0 = section_bytes(s0).len();
        let full = sections_bytes(ss);
        let b = full.take(n);
        assert(section_writable(s0));
        lemma_section_round_trip(s0, sections_bytes(rest));
        assert(ss.take(1).drop_first() =~= Seq::<SectionView>::empty());
        assert(sections_bytes(ss.take(1)).len() == len0);
        if n < len0 {
            lemma_be32_round_trip(s0.bytes.len() as u32);
            if n >= 12 {
                assert(b.subrange(8, 12) =~= be32(s0.bytes.len() as u32));
            }
        } else {
            assert(sections_writable(rest)) by {
                assert forall|i: int| 0 <= i < rest.len() implies section_writable(
                    #[trigger] rest[i],
                ) by {
                    assert(rest[i] == ss[i + 1]);
                }
            }
            assert forall|k: int| 0 <= k <= rest.len() implies n - len0
                != #[trigger] sections_bytes(rest.take(k)).len() by {
                assert(ss.take(k + 1).drop_first() =~= rest.take(k));
                assert(ss.take(k + 1)[0] == s0);
                assert(sections_bytes(ss.take(k + 1)).len() == len0 + sections_bytes(
                    rest.take(k),
                ).len());
            }
            lemma_sections_prefix(rest, n - len0);
            lemma_section_round_trip(s0, sections_bytes(rest).take(n - len0));
            assert(b =~= section_bytes(s0) + sections_bytes(rest).take(n - len0));
            assert(b.skip(len0 as int) =~= sections_bytes(rest).take(n - len0));
        }
    }
}

/// Truncation: a strict prefix of an encoded archive fails to decode with
/// `Truncated`, unless it ends exactly where a section ends (or where the
/// header ends), since such a prefix is itself a complete, shorter archive.
pub proof fn lemma_file_prefix_truncated(f: FileView, n: int)
    requires
        f.magic == magic_bytes(),
        sections_writable(f.sections),
        0 <= n < file_bytes(f).len(),
        forall|k: int|
            0 <= k <= f.sections.len() ==> n != 8 + #[trigger] sections_bytes(
                f.sections.take(k),
            ).len(),
    ensures
        parse_file(file_bytes(f).take(n)) == Err::<(FileView, nat), FormatError>(
            FormatError::Truncated,
        ),
{
    let full = file_bytes(f);
    let b = full.take(n);
    if n >= 4 {
        assert(b.subrange(0, 4) =~= magic_bytes());
    }
    if n >= 8 {
        assert(f.sections.take(0) =~= Seq::<SectionView>::empty());
        assert(sections_bytes(f.sections.take(0)).len() == 0);
        assert forall|k: int| 0 <= k <= f.sections.len() implies n - 8
            != #[trigger] sections_bytes(f.sections.take(k)).len() by {
            assert(n != 8 + sections_bytes(f.sections.take(k)).len());
        }
        lemma_sections_prefix(f.sections, n - 8);
        assert(b.skip(8) =~= sections_bytes(f.sections).take(n - 8));
    }
}

} // verus!
