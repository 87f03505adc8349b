//! The entry tree codec: a directory tree flattened in pre-order, each
//! directory announcing how many immediate children follow it.
use vstd::prelude::*;

use crate::Section;
use crate::wire::{
    FormatError, be32, from_be32, lemma_be32_round_trip, read_be32, write_be32, write_bytes,
};

verus! {

/// One flattened tree node. Its name (without the NUL terminator) and the
/// content of a file entry borrow from the buffer it was decoded from, which
/// must therefore outlive it.
#[derive(Debug, PartialEq, Eq)]
pub struct Entry<'a> {
    pub name: &'a [u8],
    pub entry: EntryInner<'a>,
}

/// What an entry is: a file with its content, or a directory with the number
/// of immediate children that follow it.
#[derive(Debug, PartialEq, Eq)]
pub enum EntryInner<'a> {
    File(&'a [u8]),
    Directory(u32),
}

/// The model of an [`EntryInner`].
pub enum EntryInnerView {
    File(Seq<u8>),
    Directory(u32),
}

/// The model of an [`Entry`].
pub struct EntryView {
    pub name: Seq<u8>,
    pub inner: EntryInnerView,
}

impl<'a> View for EntryInner<'a> {
    type V = EntryInnerView;

    open spec fn view(&self) -> EntryInnerView {
        match self {
            EntryInner::File(c) => EntryInnerView::File(c@),
            EntryInner::Directory(n) => EntryInnerView::Directory(*n),
        }
    }
}

impl<'a> View for Entry<'a> {
    type V = EntryView;

    open spec fn view(&self) -> EntryView {
        EntryView { name: self.name@, inner: self.entry@ }
    }
}

/// The models of a list of entries.
pub open spec fn entry_views<'a>(es: Seq<Entry<'a>>) -> Seq<EntryView> {
    es.map_values(|e: Entry<'a>| e@)
}

/// The name holds no NUL byte.
pub open spec fn name_ok(name: Seq<u8>) -> bool {
    forall|i: int| 0 <= i < name.len() ==> name[i] != 0
}

/// The entry can be encoded: its name holds no NUL and a file's content
/// length fits its 32-bit field.
pub open spec fn entry_writable(e: EntryView) -> bool {
    &&& name_ok(e.name)
    &&& match e.inner {
        EntryInnerView::File(c) => c.len() <= u32::MAX,
        EntryInnerView::Directory(_) => true,
    }
}

/// tag (0 file, 1 directory), the NUL-terminated name, then a big-endian word:
/// a file's content length followed by the content, or a directory's child count.
pub open spec fn entry_bytes(e: EntryView) -> Seq<u8> {
    match e.inner {
        EntryInnerView::File(c) => seq![0u8] + e.name + seq![0u8] + be32(c.len() as u32) + c,
        EntryInnerView::Directory(n) => seq![1u8] + e.name + seq![0u8] + be32(n),
    }
}

/// The entries encoded one after another.
pub open spec fn entries_bytes(es: Seq<EntryView>) -> Seq<u8>
    decreases es.len(),
{
    if es.len() == 0 {
        Seq::empty()
    } else {
        entry_bytes(es[0]) + entries_bytes(es.drop_first())
    }
}

/// `k` is the position of the first NUL after the tag byte of `b`.
pub open spec fn is_name_end(b: Seq<u8>, k: int) -> bool {
    &&& 1 <= k < b.len()
    &&& b[k] == 0
    &&& forall|j: int| 1 <= j < k ==> b[j] != 0
}

/// Decoding one entry from the front of `b`, with the bytes it takes.
#[verifier::opaque]
pub open spec fn parse_entry(b: Seq<u8>) -> Result<(EntryView, nat), FormatError> {
    if b.len() == 0 {
        Err(FormatError::Truncated)
    } else if !(exists|k: int| is_name_end(b, k)) {
        Err(FormatError::BadName)
    } else {
        let k = choose|k: int| is_name_end(b, k);
        let name = b.subrange(1, k);
        if b.len() < k + 5 {
            Err(FormatError::Truncated)
        } else {
            let word = from_be32(b.subrange(k + 1, k + 5));
            if b[0] != 0 {
                Ok((EntryView { name, inner: EntryInnerView::Directory(word) }, (k + 5) as nat))
            } else if b.len() - (k + 5) < word {
                Err(FormatError::Truncated)
            } else {
                Ok(
                    (
                        EntryView {
                            name,
                            inner: EntryInnerView::File(b.subrange(k + 5, k + 5 + word)),
                        },
                        (k + 5 + word) as nat,
                    ),
                )
            }
        }
    }
}

/// How many entries an entry announces after itself.
pub open spec fn child_count(e: EntryView) -> nat {
    match e.inner {
        EntryInnerView::File(_) => 0,
        EntryInnerView::Directory(n) => n as nat,
    }
}

/// Prefixes `es` and `n` consumed bytes to a decoding result.
pub open spec fn after(es: Seq<EntryView>, n: nat, r: Result<(Seq<EntryView>, nat), FormatError>) -> Result<
    (Seq<EntryView>, nat),
    FormatError,
> {
    match r {
        Ok((rest, m)) => Ok((es + rest, n + m)),
        Err(e) => Err(e),
    }
}

/// Decoding with `remaining` entries owed: each entry decoded pays one and
/// adds the children it announces; decoding stops when nothing is owed.
#[verifier::opaque]
pub open spec fn parse_run(b: Seq<u8>, remaining: nat) -> Result<(Seq<EntryView>, nat), FormatError>
    decreases b.len(),
    via parse_run_decreases
{
    if remaining == 0 {
        Ok((Seq::empty(), 0))
    } else {
        match parse_entry(b) {
            Err(e) => Err(e),
            Ok((e, n)) => after(
                seq![e],
                n,
                parse_run(b.skip(n as int), (remaining - 1 + child_count(e)) as nat),
            ),
        }
    }
}

pub proof fn lemma_parse_entry_size(b: Seq<u8>)
    ensures
        parse_entry(b) is Ok ==> 6 <= parse_entry(b).unwrap().1 <= b.len(),
{
    reveal(parse_entry);
}

#[via_fn]
proof fn parse_run_decreases(b: Seq<u8>, remaining: nat) {
    reveal(parse_run);
    lemma_parse_entry_size(b);
}

proof fn lemma_name_end_unique(b: Seq<u8>, k1: int, k2: int)
    requires
        is_name_end(b, k1),
        is_name_end(b, k2),
    ensures
        k1 == k2,
{
    if k1 < k2 {
        assert(b[k1] != 0);
    } else if k2 < k1 {
        assert(b[k2] != 0);
    }
}

/// Decodes one entry from the front of `bytes`, with the number of bytes it took.
pub fn read_single_entry<'a>(bytes: &'a [u8]) -> (r: Result<(Entry<'a>, usize), FormatError>)
    ensures
        parse_entry(bytes@) == (match r {
            Ok((e, n)) => Ok((e@, n as nat)),
            Err(e) => Err(e),
        }),
{
    reveal(parse_entry);
    if bytes.len() == 0 {
        return Err(FormatError::Truncated);
    }
    let is_dir = bytes[0] != 0;
    let mut i: usize = 1;
    while i < bytes.len() && bytes[i] != 0
        invariant
            1 <= i <= bytes@.len(),
            forall|j: int| 1 <= j < i ==> bytes@[j] != 0,
        decreases bytes@.len() - i,
    {
        i += 1;
    }
    if i == bytes.len() {
        assert(!(exists|k: int| is_name_end(bytes@, k))) by {
            if exists|k: int| is_name_end(bytes@, k) {
                let k = choose|k: int| is_name_end(bytes@, k);
                assert(bytes@[k] != 0);
            }
        }
        return Err(FormatError::BadName);
    }
    assert(is_name_end(bytes@, i as int));
    proof {
        let k = choose|k: int| is_name_end(bytes@, k);
        lemma_name_end_unique(bytes@, k, i as int);
    }
    let name = vstd::slice::slice_subrange(bytes, 1, i);
    if bytes.len() - i < 5 {
        return Err(FormatError::Truncated);
    }
    let word = read_be32(bytes, i + 1);
    let start = i + 5;
    if is_dir {
        Ok((Entry { name, entry: EntryInner::Directory(word) }, start))
    } else if bytes.len() - start < word as usize {
        Err(FormatError::Truncated)
    } else {
        let end = start + word as usize;
        let content = vstd::slice::slice_subrange(bytes, start, end);
        Ok((Entry { name, entry: EntryInner::File(content) }, end))
    }
}

/// Decodes one entry and every entry it announces, recursively: the whole
/// subtree that starts at the front of `bytes`. The entries are appended to
/// `entries` in pre-order and the number of bytes taken is returned; on an
/// error `entries` is left as it was.
pub fn read_entry_recursive<'a>(bytes: &'a [u8], entries: &mut Vec<Entry<'a>>) -> (r: Result<
    usize,
    FormatError,
>)
    ensures
        match parse_run(bytes@, 1) {
            Ok((es, n)) => {
                &&& r == Ok::<usize, FormatError>(n as usize)
                &&& entry_views(final(entries)@) == entry_views(old(entries)@) + es
            },
            Err(e) => {
                &&& r == Err::<usize, FormatError>(e)
                &&& final(entries)@ == old(entries)@
            },
        },
{
    reveal(parse_run);
    let mut found: Vec<Entry<'a>> = Vec::new();
    let mut i: usize = 0;
    // Entries still owed across every open directory. Each step adds fewer
    // than 2^32 and takes at least one byte, so 128 bits always hold it.
    let mut remaining: u128 = 1;
    proof {
        assert(bytes@.skip(0) =~= bytes@);
        assert(entry_views(found@) =~= Seq::<EntryView>::empty());
        match parse_run(bytes@, 1) {
            Ok((es, m)) => {
                assert(Seq::<EntryView>::empty() + es =~= es);
            },
            Err(_) => {},
        }
    }
    while remaining > 0
        invariant
            i <= bytes@.len(),
            remaining <= (i + 1) * 0x1_0000_0000,
            parse_run(bytes@, 1) == after(
                entry_views(found@),
                i as nat,
                parse_run(bytes@.skip(i as int), remaining as nat),
            ),
        decreases bytes@.len() - i,
    {
        proof {
            reveal(parse_run);
        }
        let rest = vstd::slice::slice_subrange(bytes, i, bytes.len());
        assert(rest@ =~= bytes@.skip(i as int));
        match read_single_entry(rest) {
            Err(e) => {
                assert(parse_run(bytes@.skip(i as int), remaining as nat) == Err::<
                    (Seq<EntryView>, nat),
                    FormatError,
                >(e));
                return Err(e);
            },
            Ok((entry, j)) => {
                proof {
                    lemma_parse_entry_size(rest@);
                    assert(rest@.skip(j as int) =~= bytes@.skip(i + j));
                }
                let ghost old_found = found@;
                let ghost old_remaining = remaining;
                let ghost old_i = i;
                if let EntryInner::Directory(len) = &entry.entry {
                    remaining = remaining + *len as u128;
                }
                assert(remaining == old_remaining + child_count(entry@));
                found.push(entry);
                remaining = remaining - 1;
                i = i + j;
                proof {
                    assert(remaining <= (i + 1) * 0x1_0000_0000) by (nonlinear_arith)
                        requires
                            old_remaining <= (old_i + 1) * 0x1_0000_0000,
                            remaining <= old_remaining + 0xFFFF_FFFF - 1,
                            i >= old_i + 1,
                    ;
                    assert(entry_views(found@) =~= entry_views(old_found) + seq![entry@]);
                    match parse_run(bytes@.skip(i as int), remaining as nat) {
                        Ok((es, m)) => {
                            assert(entry_views(old_found) + (seq![entry@] + es) =~= entry_views(
                                found@,
                            ) + es);
                        },
                        Err(_) => {},
                    }
                }
            },
        }
    }
    assert(entry_views(found@) + Seq::<EntryView>::empty() =~= entry_views(found@));
    let ghost before = entries@;
    let ghost decoded = found@;
    entries.append(&mut found);
    assert(entry_views(entries@) =~= entry_views(before) + entry_views(decoded));
    Ok(i)
}

/// Whether `name` holds no NUL byte.
pub fn name_is_ok(name: &[u8]) -> (r: bool)
    ensures
        r == name_ok(name@),
{
    let mut i: usize = 0;
    while i < name.len()
        invariant
            i <= name@.len(),
            forall|j: int| 0 <= j < i ==> name@[j] != 0,
        decreases name@.len() - i,
    {
        if name[i] == 0 {
            return false;
        }
        i += 1;
    }
    true
}

impl<'a> Entry<'a> {
    /// Whether the entry can be encoded: its name holds no NUL byte and a
    /// file's content length fits 32 bits. Writers require this.
    pub fn is_writable(&self) -> (r: bool)
        ensures
            r == entry_writable(self@),
    {
        name_is_ok(self.name) && match &self.entry {
            EntryInner::File(c) => c.len() <= 0xFFFF_FFFF,
            EntryInner::Directory(_) => true,
        }
    }
}

/// Appends the encoding of one entry.
pub fn write_single_entry(entry: &Entry, bytes: &mut Vec<u8>)
    requires
        entry_writable(entry@),
    ensures
        final(bytes)@ == old(bytes)@ + entry_bytes(entry@),
{
    match &entry.entry {
        EntryInner::File(contents) => {
            bytes.push(0);
            write_bytes(entry.name, bytes);
            bytes.push(0);
            write_be32(contents.len() as u32, bytes);
            write_bytes(contents, bytes);
        },
        EntryInner::Directory(len) => {
            bytes.push(1);
            write_bytes(entry.name, bytes);
            bytes.push(0);
            write_be32(*len, bytes);
        },
    }
    assert(bytes@ =~= old(bytes)@ + entry_bytes(entry@));
}

pub proof fn lemma_entries_bytes_append(a: Seq<EntryView>, b: Seq<EntryView>)
    ensures
        entries_bytes(a + b) == entries_bytes(a) + entries_bytes(b),
    decreases a.len(),
{
    if a.len() == 0 {
        assert(a + b =~= b);
        assert(entries_bytes(a) + entries_bytes(b) =~= entries_bytes(b));
    } else {
        assert((a + b).drop_first() =~= a.drop_first() + b);
        lemma_entries_bytes_append(a.drop_first(), b);
        assert(entries_bytes(a + b) =~= entries_bytes(a) + entries_bytes(b));
    }
}

pub proof fn lemma_entries_bytes_single(e: EntryView)
    ensures
        entries_bytes(seq![e]) == entry_bytes(e),
{
    assert(seq![e].drop_first() =~= Seq::<EntryView>::empty());
    assert(entries_bytes(Seq::<EntryView>::empty()) =~= Seq::<u8>::empty());
    assert(entries_bytes(seq![e]) =~= entry_bytes(e));
}

/// Appends the encodings of `entries`, in order.
pub fn write_entry_recursive(entries: &[Entry], bytes: &mut Vec<u8>)
    requires
        forall|i: int| 0 <= i < entries@.len() ==> entry_writable(#[trigger] entries@[i]@),
    ensures
        final(bytes)@ == old(bytes)@ + entries_bytes(entry_views(entries@)),
{
    let ghost views = entry_views(entries@);
    let mut i: usize = 0;
    assert(views.take(0) =~= Seq::<EntryView>::empty());
    assert(bytes@ =~= old(bytes)@ + entries_bytes(views.take(0)));
    while i < entries.len()
        invariant
            i <= entries@.len(),
            views == entry_views(entries@),
            forall|k: int| 0 <= k < entries@.len() ==> entry_writable(#[trigger] entries@[k]@),
            bytes@ == old(bytes)@ + entries_bytes(views.take(i as int)),
        decreases entries@.len() - i,
    {
        write_single_entry(&entries[i], bytes);
        proof {
            assert(views.take(i + 1) =~= views.take(i as int) + seq![views[i as int]]);
            lemma_entries_bytes_append(views.take(i as int), seq![views[i as int]]);
            lemma_entries_bytes_single(views[i as int]);
        }
        i += 1;
    }
    assert(views.take(i as int) =~= views);
}

pub proof fn lemma_parse_run_size(b: Seq<u8>, remaining: nat)
    ensures
        parse_run(b, remaining) is Ok ==> parse_run(b, remaining).unwrap().1 <= b.len(),
        parse_run(b, remaining) is Ok && remaining > 0 ==> parse_run(b, remaining).unwrap().1
            >= 6,
    decreases b.len(),
{
    reveal(parse_run);
    if remaining > 0 {
        lemma_parse_entry_size(b);
        if let Ok((e, n)) = parse_entry(b) {
            lemma_parse_run_size(b.skip(n as int), (remaining - 1 + child_count(e)) as nat);
        }
    }
}

/// Decoding whole subtrees, one after another, until the end of `b`.
pub open spec fn parse_subtrees(b: Seq<u8>) -> Result<Seq<EntryView>, FormatError>
    decreases b.len(),
    via parse_subtrees_decreases
{
    if b.len() == 0 {
        Ok(Seq::empty())
    } else {
        match parse_run(b, 1) {
            Err(e) => Err(e),
            Ok((es, n)) => match parse_subtrees(b.skip(n as int)) {
                Ok(rest) => Ok(es + rest),
                Err(e) => Err(e),
            },
        }
    }
}

#[via_fn]
proof fn parse_subtrees_decreases(b: Seq<u8>) {
    lemma_parse_run_size(b, 1);
}

/// Decoding a tree section's payload: the declared root count, then subtrees
/// until the payload ends. Gives every entry in pre-order and the root count.
pub open spec fn parse_payload(b: Seq<u8>) -> Result<(Seq<EntryView>, u32), FormatError> {
    if b.len() < 4 {
        Err(FormatError::Truncated)
    } else {
        match parse_subtrees(b.skip(4)) {
            Ok(es) => Ok((es, from_be32(b.subrange(0, 4)))),
            Err(e) => Err(e),
        }
    }
}

/// Decodes a tree section's payload: every entry in pre-order, and the root
/// count that the payload declares, for the caller to check.
pub fn read_entries_recursive<'a>(section: &Section<'a>) -> (r: Result<
    (Vec<Entry<'a>>, u32),
    FormatError,
>)
    ensures
        parse_payload(section.bytes@) == (match r {
            Ok((es, n)) => Ok((entry_views(es@), n)),
            Err(e) => Err(e),
        }),
{
    let bytes = section.bytes;
    if bytes.len() < 4 {
        return Err(FormatError::Truncated);
    }
    let mut entries: Vec<Entry<'a>> = Vec::new();
    let mut i: usize = 4;
    proof {
        assert(entry_views(entries@) =~= Seq::<EntryView>::empty());
        match parse_subtrees(bytes@.skip(4)) {
            Ok(es) => {
                assert(Seq::<EntryView>::empty() + es =~= es);
            },
            Err(_) => {},
        }
    }
    while i < bytes.len()
        invariant
            4 <= i <= bytes@.len(),
            bytes@ == section.bytes@,
            parse_subtrees(bytes@.skip(4)) == match parse_subtrees(bytes@.skip(i as int)) {
                Ok(rest) => Ok(entry_views(entries@) + rest),
                Err(e) => Err(e),
            },
        decreases bytes@.len() - i,
    {
        let rest = vstd::slice::slice_subrange(bytes, i, bytes.len());
        assert(rest@ =~= bytes@.skip(i as int));
        let ghost before = entries@;
        match read_entry_recursive(rest, &mut entries) {
            Err(e) => {
                assert(parse_subtrees(bytes@.skip(i as int)) == Err::<Seq<EntryView>, FormatError>(
                    e,
                ));
                return Err(e);
            },
            Ok(n) => {
                proof {
                    lemma_parse_run_size(rest@, 1);
                    assert(rest@.skip(n as int) =~= bytes@.skip(i + n));
                    let es = parse_run(rest@, 1).unwrap().0;
                    match parse_subtrees(bytes@.skip(i + n)) {
                        Ok(more) => {
                            assert(entry_views(before) + (es + more) =~= entry_views(entries@)
                                + more);
                        },
                        Err(_) => {},
                    }
                }
                i = i + n;
            },
        }
    }
    assert(bytes@.skip(i as int).len() == 0);
    assert(entry_views(entries@) + Seq::<EntryView>::empty() =~= entry_views(entries@));
    let roots = read_be32(bytes, 0);
    Ok((entries, roots))
}

/// An encoded entry decodes to itself, whatever follows it, and takes
/// exactly its own bytes.
pub proof fn lemma_entry_round_trip(e: EntryView, tail: Seq<u8>)
    requires
        entry_writable(e),
    ensures
        parse_entry(entry_bytes(e) + tail) == Ok::<(EntryView, nat), FormatError>(
            (e, entry_bytes(e).len()),
        ),
        entry_bytes(e).len() >= 6,
{
    reveal(parse_entry);
    let b = entry_bytes(e) + tail;
    let k = (e.name.len() + 1) as int;
    assert(is_name_end(b, k));
    let kk = choose|k: int| is_name_end(b, k);
    lemma_name_end_unique(b, kk, k);
    assert(b.subrange(1, k) =~= e.name);
    match e.inner {
        EntryInnerView::File(c) => {
            lemma_be32_round_trip(c.len() as u32);
            assert(b.subrange(k + 1, k + 5) =~= be32(c.len() as u32));
            assert(b.subrange(k + 5, k + 5 + c.len()) =~= c);
        },
        EntryInnerView::Directory(n) => {
            lemma_be32_round_trip(n);
            assert(b.subrange(k + 1, k + 5) =~= be32(n));
        },
    }
}

/// Decoding with entries owed starts by taking one whole entry, paying one
/// and adding the children it announces.
pub proof fn lemma_parse_run_step(e: EntryView, tail: Seq<u8>, remaining: nat)
    requires
        entry_writable(e),
        remaining > 0,
    ensures
        parse_run(entry_bytes(e) + tail, remaining) == after(
            seq![e],
            entry_bytes(e).len(),
            parse_run(tail, (remaining - 1 + child_count(e)) as nat),
        ),
{
    reveal(parse_run);
    lemma_entry_round_trip(e, tail);
    assert((entry_bytes(e) + tail).skip(entry_bytes(e).len() as int) =~= tail);
}

/// The decoder ran out of bytes: a header, a content block or a name's
/// terminator lay beyond the end of the buffer.
pub open spec fn ran_out<T>(r: Result<T, FormatError>) -> bool {
    r == Err::<T, FormatError>(FormatError::Truncated) || r == Err::<T, FormatError>(
        FormatError::BadName,
    )
}

/// A strict prefix of an encoded entry does not decode: it runs out of bytes.
pub proof fn lemma_entry_prefix_fails(e: EntryView, k: int)
    requires
        entry_writable(e),
        0 <= k < entry_bytes(e).len(),
    ensures
        ran_out(parse_entry(entry_bytes(e).take(k))),
{
    reveal(parse_entry);
    let full = entry_bytes(e);
    let b = full.take(k);
    let z = (e.name.len() + 1) as int;
    if k > z {
        assert(is_name_end(b, z));
        let kk = choose|k: int| is_name_end(b, k);
        lemma_name_end_unique(b, kk, z);
        if k >= z + 5 {
            if let EntryInnerView::File(c) = e.inner {
                lemma_be32_round_trip(c.len() as u32);
                assert(b.subrange(z + 1, z + 5) =~= be32(c.len() as u32));
            }
        }
    } else if k > 0 {
        assert(!(exists|j: int| is_name_end(b, j))) by {
            if exists|j: int| is_name_end(b, j) {
                let j = choose|j: int| is_name_end(b, j);
                assert(b[j] == e.name[j - 1]);
            }
        }
    }
}

} // verus!
