//! Directories: their entries, their sub-directories and their raster.

use vstd::prelude::*;
use vstd::slice::slice_subrange;
use crate::buffer::{
    index_after, lemma_reads_in_tail, read_u16_at, read_u32_at, u16_from, u32_from, window,
    window_at,
};
use crate::endianness::Endianness;
use crate::error::{outcome, ErrorView, TiffParserError};
use crate::field::{field_of_code, Field};
use crate::tags::{
    TAG_IMAGE_LENGTH, TAG_IMAGE_WIDTH, TAG_ROWS_PER_STRIP, TAG_STRIP_BYTE_COUNTS,
    TAG_STRIP_OFFSETS, TAG_SUB_IFDS, TAG_TILE_BYTE_COUNTS, TAG_TILE_LENGTH, TAG_TILE_OFFSETS,
    TAG_TILE_WIDTH,
};
use crate::raster::{raster_of, reconstruct, stripped, tiled, tiled_raster};
use crate::value::{decoded, Value, ValueView};

verus! {

/// One entry of a directory: a tag and the value stored under it.
#[derive(Debug)]
pub struct IfdEntry {
    pub tag: u16,
    pub value: Value,
}

/// An entry as a mathematical value.
pub struct IfdEntryView {
    pub tag: u16,
    pub value: ValueView,
}

impl View for IfdEntry {
    type V = IfdEntryView;

    open spec fn view(&self) -> IfdEntryView {
        IfdEntryView { tag: self.tag, value: self.value@ }
    }
}

/// A directory: its entries in the order of the file, without those that
/// point to sub-directories; the sub-directories those pointed to; and the
/// pixels of its image, row by row from the top, where it has a tiled one.
#[derive(Debug)]
pub struct Ifd {
    pub entries: Vec<IfdEntry>,
    pub sub_ifds: Vec<Ifd>,
    pub data: Vec<i32>,
}

/// A directory as a mathematical value.
pub struct IfdView {
    pub entries: Seq<IfdEntryView>,
    pub sub_ifds: Seq<IfdView>,
    pub data: Seq<i32>,
}

/// The entries of a vector, each as a mathematical value.
pub open spec fn entry_views(entries: Seq<IfdEntry>) -> Seq<IfdEntryView> {
    Seq::new(entries.len(), |i: int| entries[i]@)
}

/// A directory as a mathematical value: its entries and its pixels as
/// sequences, and each of its sub-directories as such a value in turn.
pub open spec fn ifd_view(ifd: Ifd) -> IfdView
    decreases ifd,
{
    IfdView {
        entries: entry_views(ifd.entries@),
        sub_ifds: Seq::new(
            ifd.sub_ifds@.len(),
            |i: int|
                if 0 <= i < ifd.sub_ifds@.len() {
                    ifd_view(ifd.sub_ifds@[i])
                } else {
                    arbitrary()
                },
        ),
        data: ifd.data@,
    }
}

impl View for Ifd {
    type V = IfdView;

    open spec fn view(&self) -> IfdView {
        ifd_view(*self)
    }
}

/// The directories of a vector, each as a mathematical value.
pub open spec fn ifd_views(ifds: Seq<Ifd>) -> Seq<IfdView> {
    Seq::new(ifds.len(), |i: int| ifds[i]@)
}

/// The view of a directory is made of the views of its three fields.
pub proof fn lemma_ifd_view(ifd: Ifd)
    ensures
        ifd@.entries == entry_views(ifd.entries@),
        ifd@.sub_ifds == ifd_views(ifd.sub_ifds@),
        ifd@.data == ifd.data@,
{
    assert(ifd@.sub_ifds =~= ifd_views(ifd.sub_ifds@));
}

/// The value of the first entry that carries `tag`.
pub open spec fn find(entries: Seq<IfdEntryView>, tag: u16) -> Option<ValueView>
    decreases entries.len(),
{
    if entries.len() == 0 {
        None
    } else if entries[0].tag == tag {
        Some(entries[0].value)
    } else {
        find(entries.drop_first(), tag)
    }
}

/// What asking a directory for the value under `tag` gives.
pub open spec fn lookup(entries: Seq<IfdEntryView>, tag: u16) -> Result<ValueView, ErrorView> {
    match find(entries, tag) {
        Some(v) => Ok(v),
        None => Err(ErrorView::MissingValue(tag)),
    }
}

/// The value under `tag` in the first of these directories that has one
/// among its own entries.
pub open spec fn find_in_any(ifds: Seq<IfdView>, tag: u16) -> Option<ValueView>
    decreases ifds.len(),
{
    if ifds.len() == 0 {
        None
    } else {
        match find(ifds[0].entries, tag) {
            Some(v) => Some(v),
            None => find_in_any(ifds.drop_first(), tag),
        }
    }
}

impl IfdView {
    /// Whether an entry carries `tag`.
    pub open spec fn has(self, tag: u16) -> bool {
        find(self.entries, tag) is Some
    }

    /// Whether an entry carries `tag`, here or anywhere below.
    pub open spec fn has_below(self, tag: u16) -> bool
        decreases self,
    {
        self.has(tag) || exists|i: int|
            0 <= i < self.sub_ifds.len() && (#[trigger] self.sub_ifds[i]).has_below(tag)
    }

    /// The value under `tag` among the directory's own entries or, failing
    /// that, among the entries of its sub-directories, the first first.
    pub open spec fn find_nested(self, tag: u16) -> Option<ValueView> {
        match find(self.entries, tag) {
            Some(v) => Some(v),
            None => find_in_any(self.sub_ifds, tag),
        }
    }

    /// The first element of the unsigned 16-bit value under `tag`.
    pub open spec fn short_under(self, tag: u16) -> Option<u16> {
        match find(self.entries, tag) {
            Some(v) => match v.short() {
                Ok(x) => Some(x),
                Err(_) => None,
            },
            None => None,
        }
    }

    /// Whether the directory carries the three tags of an image in strips.
    pub open spec fn is_stripped(self) -> bool {
        stripped(self.entries)
    }

    /// Whether the directory carries the four tags of an image in tiles.
    pub open spec fn is_tiled(self) -> bool {
        tiled(self.entries)
    }

    /// The directory with other pixels.
    pub open spec fn with_data(self, data: Seq<i32>) -> IfdView {
        IfdView { entries: self.entries, sub_ifds: self.sub_ifds, data }
    }
}

/// The bytes of the value of an entry at index `start` that holds `n`
/// bytes: the entry's last four bytes where they have room for the value,
/// else the bytes at the offset that those four bytes state.
pub open spec fn value_bytes(e: Endianness, buf: Seq<u8>, start: int, n: int) -> Result<
    Seq<u8>,
    ErrorView,
> {
    if n <= 4 {
        window_at(buf, start + 8, n)
    } else {
        match u32_from(e, buf, start + 8) {
            Ok(offset) => window_at(buf, offset as int, n),
            Err(x) => Err(x),
        }
    }
}

/// The entry stored in the twelve bytes at index `start`: a tag, a type
/// code, a count of elements, and the value or its offset.
pub open spec fn entry_at(e: Endianness, buf: Seq<u8>, start: int) -> Result<
    IfdEntryView,
    ErrorView,
> {
    match u16_from(e, buf, start) {
        Err(x) => Err(x),
        Ok(tag) => match u16_from(e, buf, start + 2) {
            Err(x) => Err(x),
            Ok(code) => match field_of_code(code) {
                None => Err(ErrorView::UnknownFieldType(code)),
                Some(field) => match u32_from(e, buf, start + 4) {
                    Err(x) => Err(x),
                    Ok(count) => match value_bytes(e, buf, start, count * field.width()) {
                        Err(x) => Err(x),
                        Ok(bytes) => match decoded(e, field, bytes) {
                            Err(x) => Err(x),
                            Ok(value) => Ok(IfdEntryView { tag, value }),
                        },
                    },
                },
            },
        },
    }
}

impl IfdEntry {
    /// Reads the entry stored at index `start` of `buf`.
    pub fn read(endianness: Endianness, buf: &[u8], start: usize) -> (r: Result<
        IfdEntry,
        TiffParserError,
    >)
        ensures
            outcome(r) == entry_at(endianness, buf@, start as int),
    {
        if start > buf.len() {
            return Err(TiffParserError::TryFromSlice);
        }
        let rest = slice_subrange(buf, start, buf.len());
        proof {
            lemma_reads_in_tail(endianness, buf@, start as int, 0, 0);
            lemma_reads_in_tail(endianness, buf@, start as int, 2, 0);
            lemma_reads_in_tail(endianness, buf@, start as int, 4, 0);
            lemma_reads_in_tail(endianness, buf@, start as int, 8, 0);
        }
        let tag = read_u16_at(endianness, rest, 0)?;
        let code = read_u16_at(endianness, rest, 2)?;
        let field = Field::from_u16(code)?;
        let count = read_u32_at(endianness, rest, 4)?;
        let width = field.size();
        assert(count * width <= 0xffff_ffff * 8) by (nonlinear_arith)
            requires
                count <= 0xffff_ffff,
                width <= 8,
        ;
        let num_bytes: u64 = (count as u64) * (width as u64);
        let bytes = if num_bytes <= 4 {
            proof {
                lemma_reads_in_tail(endianness, buf@, start as int, 8, num_bytes as int);
            }
            window(rest, 8, num_bytes)?
        } else {
            let offset = read_u32_at(endianness, rest, 8)?;
            window(buf, offset as u64, num_bytes)?
        };
        let value = Value::from_bytes(endianness, field, bytes)?;
        Ok(IfdEntry { tag, value })
    }
}

/// The offsets that an entry states where it points to sub-directories:
/// it carries the sub-directory tag and its value is unsigned 32-bit.
pub open spec fn pointer_of(entry: IfdEntryView) -> Option<Seq<u32>> {
    if entry.tag == TAG_SUB_IFDS {
        match entry.value {
            ValueView::Longs(offsets) => Some(offsets),
            _ => None,
        }
    } else {
        None
    }
}

/// The directories before a result's, where there is a result.
pub open spec fn after(before: Seq<IfdView>, rest: Result<Seq<IfdView>, ErrorView>) -> Result<
    Seq<IfdView>,
    ErrorView,
> {
    match rest {
        Ok(more) => Ok(before + more),
        Err(x) => Err(x),
    }
}

/// The directory stored at index `start`: a count of entries, the entries,
/// the offset of the directory that follows, and the pixels that the
/// entries describe. `depth` is how deep sub-directories may still be
/// nested below this one.
pub open spec fn dir_at(e: Endianness, buf: Seq<u8>, start: int, depth: nat) -> Result<
    (IfdView, usize),
    ErrorView,
>
    decreases depth, 2nat, 0nat,
{
    match u16_from(e, buf, start) {
        Err(x) => Err(x),
        Ok(n) => match scanned(e, buf, start, n as nat, depth) {
            Err(x) => Err(x),
            Ok((entries, sub_ifds)) => match u32_from(e, buf, start + 2 + 12 * n) {
                Err(x) => Err(x),
                Ok(next) => match raster_of(e, buf, entries) {
                    Err(x) => Err(x),
                    Ok(data) => Ok((IfdView { entries, sub_ifds, data }, next as usize)),
                },
            },
        },
    }
}

/// What the first `k` entries of the directory at index `start` give: the
/// entries that stay entries, and the sub-directories that the others
/// point to. An entry that points to sub-directories states the offset of
/// the first; each sub-directory states the offset of the next, and the
/// offset zero ends the chain.
pub open spec fn scanned(e: Endianness, buf: Seq<u8>, start: int, k: nat, depth: nat) -> Result<
    (Seq<IfdEntryView>, Seq<IfdView>),
    ErrorView,
>
    decreases depth, 1nat, k,
{
    if k == 0 {
        Ok((Seq::empty(), Seq::empty()))
    } else {
        match scanned(e, buf, start, (k - 1) as nat, depth) {
            Err(x) => Err(x),
            Ok((entries, sub_ifds)) => match entry_at(e, buf, start + 2 + 12 * (k - 1)) {
                Err(x) => Err(x),
                Ok(entry) => match pointer_of(entry) {
                    None => Ok((entries.push(entry), sub_ifds)),
                    Some(offsets) => if offsets.len() == 0 {
                        Err(ErrorView::TryFromSlice)
                    } else if offsets[0] == 0 {
                        Ok((entries, sub_ifds))
                    } else if depth == 0 {
                        Err(ErrorView::DirectoryLoop)
                    } else {
                        match chain_at(
                            e,
                            buf,
                            offsets[0] as int,
                            (depth - 1) as nat,
                            chain_room(buf),
                        ) {
                            Err(x) => Err(x),
                            Ok(more) => Ok((entries, sub_ifds + more)),
                        }
                    },
                },
            },
        }
    }
}

/// How many directories a chain in a buffer may hold: one more than the
/// buffer has bytes. A chain that holds more directories than the buffer
/// has bytes and still goes on is refused as a loop.
pub open spec fn chain_room(buf: Seq<u8>) -> nat {
    buf.len() + 1
}

/// The chain of directories that starts at index `offset`: the directory
/// there, then the one at the offset that it states for the next, and so
/// on until that offset is zero. `room` is how many directories the chain
/// may still hold.
pub open spec fn chain_at(e: Endianness, buf: Seq<u8>, offset: int, depth: nat, room: nat) -> Result<
    Seq<IfdView>,
    ErrorView,
>
    decreases depth, 3nat, room,
{
    if offset == 0 {
        Ok(Seq::empty())
    } else if room == 0 {
        Err(ErrorView::DirectoryLoop)
    } else {
        match dir_at(e, buf, offset, depth) {
            Err(x) => Err(x),
            Ok((ifd, next)) => after(
                seq![ifd],
                chain_at(e, buf, next as int, depth, (room - 1) as nat),
            ),
        }
    }
}

/// Once an entry has failed, reading more entries changes nothing.
pub proof fn lemma_scanned_failure(
    e: Endianness,
    buf: Seq<u8>,
    start: int,
    i: nat,
    n: nat,
    depth: nat,
)
    requires
        i <= n,
        scanned(e, buf, start, i, depth) is Err,
    ensures
        scanned(e, buf, start, n, depth) == scanned(e, buf, start, i, depth),
    decreases n,
{
    if i < n {
        lemma_scanned_failure(e, buf, start, i, (n - 1) as nat, depth);
    }
}

/// The offsets that an entry states where it points to sub-directories.
fn sub_ifd_pointer(entry: &IfdEntry) -> (r: Option<&Vec<u32>>)
    ensures
        match r {
            Some(offsets) => pointer_of(entry@) == Some(offsets@),
            None => pointer_of(entry@) is None,
        },
{
    if entry.tag == TAG_SUB_IFDS {
        match &entry.value {
            Value::Longs(offsets) => Some(offsets),
            _ => None,
        }
    } else {
        None
    }
}

impl Ifd {
    /// Reads the directory stored at index `start` of `buf`, with all
    /// that lies below it, and says where the next directory is stored.
    /// Sub-directories may be nested as deep as the buffer has bytes.
    pub fn read(endianness: Endianness, buf: &[u8], start: usize) -> (r: Result<
        (Ifd, usize),
        TiffParserError,
    >)
        ensures
            outcome(r) == dir_at(endianness, buf@, start as int, buf@.len()),
    {
        Self::read_within(endianness, buf, start, buf.len())
    }

    /// Reads the directory stored at index `start` of `buf`, with
    /// sub-directories nested at most `depth` deep below it.
    pub fn read_within(endianness: Endianness, buf: &[u8], start: usize, depth: usize) -> (r:
        Result<(Ifd, usize), TiffParserError>)
        ensures
            outcome(r) == dir_at(endianness, buf@, start as int, depth as nat),
        decreases depth, 2nat,
    {
        assert(buf@.len() == buf.len());
        let num_entries = read_u16_at(endianness, buf, start as u64)?;
        let (entries, sub_ifds) = Self::read_entries(endianness, buf, start, num_entries, depth)?;
        let position = match index_after(start, 2 + 12 * (num_entries as usize)) {
            Some(position) => position,
            None => {
                return Err(TiffParserError::TryFromSlice);
            },
        };
        let next_ifd_offset = read_u32_at(endianness, buf, position as u64)? as usize;
        let mut ifd = Ifd { entries, sub_ifds, data: Vec::new() };
        proof {
            lemma_ifd_view(ifd);
        }
        ifd.read_data(endianness, buf)?;
        Ok((ifd, next_ifd_offset))
    }

    /// Reads the `count` entries of the directory stored at index `start`
    /// of `buf`, and the sub-directories that they point to.
    pub fn read_entries(
        endianness: Endianness,
        buf: &[u8],
        start: usize,
        count: u16,
        depth: usize,
    ) -> (r: Result<(Vec<IfdEntry>, Vec<Ifd>), TiffParserError>)
        ensures
            match r {
                Ok((entries, sub_ifds)) => scanned(
                    endianness,
                    buf@,
                    start as int,
                    count as nat,
                    depth as nat,
                ) == Ok::<(Seq<IfdEntryView>, Seq<IfdView>), ErrorView>(
                    (entry_views(entries@), ifd_views(sub_ifds@)),
                ),
                Err(x) => scanned(endianness, buf@, start as int, count as nat, depth as nat)
                    == Err::<(Seq<IfdEntryView>, Seq<IfdView>), ErrorView>(x@),
            },
        decreases depth, 1nat,
    {
        assert(buf@.len() == buf.len());
        let mut entries: Vec<IfdEntry> = Vec::new();
        let mut sub_ifds: Vec<Ifd> = Vec::new();
        assert(entry_views(entries@) =~= Seq::<IfdEntryView>::empty());
        assert(ifd_views(sub_ifds@) =~= Seq::<IfdView>::empty());
        let mut i: u16 = 0;
        while i < count
            invariant
                i <= count,
                buf@.len() <= usize::MAX,
                scanned(endianness, buf@, start as int, i as nat, depth as nat) == Ok::<
                    (Seq<IfdEntryView>, Seq<IfdView>),
                    ErrorView,
                >((entry_views(entries@), ifd_views(sub_ifds@))),
            decreases count - i,
        {
            let ghost step = scanned(endianness, buf@, start as int, (i + 1) as nat, depth as nat);
            proof {
                if step is Err {
                    lemma_scanned_failure(
                        endianness,
                        buf@,
                        start as int,
                        (i + 1) as nat,
                        count as nat,
                        depth as nat,
                    );
                }
            }
            let position = match index_after(start, 2 + 12 * (i as usize)) {
                Some(position) => position,
                None => {
                    return Err(TiffParserError::TryFromSlice);
                },
            };
            let entry = IfdEntry::read(endianness, buf, position)?;
            match sub_ifd_pointer(&entry) {
                Some(offsets) => {
                    if offsets.len() == 0 {
                        return Err(TiffParserError::TryFromSlice);
                    }
                    let first = offsets[0] as usize;
                    if first != 0 {
                        if depth == 0 {
                            return Err(TiffParserError::DirectoryLoop);
                        }
                        let mut more = Self::read_chain(endianness, buf, first, depth - 1)?;
                        assert(ifd_views(sub_ifds@ + more@) =~= ifd_views(sub_ifds@) + ifd_views(
                            more@,
                        ));
                        sub_ifds.append(&mut more);
                    }
                },
                None => {
                    assert(entry_views(entries@.push(entry)) =~= entry_views(entries@).push(
                        entry@,
                    ));
                    entries.push(entry);
                },
            }
            i = i + 1;
        }
        Ok((entries, sub_ifds))
    }

    /// Reads the chain of directories that starts at index `offset` of
    /// `buf`; the offset zero is the empty chain. Each directory may have
    /// sub-directories nested at most `depth` deep below it. A chain that
    /// holds more directories than the buffer has bytes and still goes on
    /// is refused as a loop.
    pub fn read_chain(endianness: Endianness, buf: &[u8], offset: usize, depth: usize) -> (r:
        Result<Vec<Ifd>, TiffParserError>)
        ensures
            match r {
                Ok(ifds) => chain_at(
                    endianness,
                    buf@,
                    offset as int,
                    depth as nat,
                    chain_room(buf@),
                ) == Ok::<Seq<IfdView>, ErrorView>(ifd_views(ifds@)),
                Err(x) => chain_at(
                    endianness,
                    buf@,
                    offset as int,
                    depth as nat,
                    chain_room(buf@),
                ) == Err::<Seq<IfdView>, ErrorView>(x@),
            },
        decreases depth, 3nat,
    {
        let ghost whole = chain_at(
            endianness,
            buf@,
            offset as int,
            depth as nat,
            chain_room(buf@),
        );
        let mut ifds: Vec<Ifd> = Vec::new();
        let mut next_ifd_offset = offset;
        assert(whole is Ok ==> Seq::<IfdView>::empty() + whole->Ok_0 =~= whole->Ok_0);
        while next_ifd_offset != 0
            invariant
                ifds@.len() <= buf@.len() + 1,
                whole == chain_at(
                    endianness,
                    buf@,
                    offset as int,
                    depth as nat,
                    chain_room(buf@),
                ),
                whole == after(
                    ifd_views(ifds@),
                    chain_at(
                        endianness,
                        buf@,
                        next_ifd_offset as int,
                        depth as nat,
                        (chain_room(buf@) - ifds@.len()) as nat,
                    ),
                ),
            decreases buf@.len() + 1 - ifds@.len(),
        {
            if ifds.len() > buf.len() {
                return Err(TiffParserError::DirectoryLoop);
            }
            let ghost before = ifd_views(ifds@);
            let ghost room = (chain_room(buf@) - ifds@.len()) as nat;
            let (ifd, next) = Self::read_within(endianness, buf, next_ifd_offset, depth)?;
            proof {
                let rest = chain_at(endianness, buf@, next as int, depth as nat, (room - 1) as nat);
                assert(ifd_views(ifds@.push(ifd)) =~= before.push(ifd@));
                if rest is Ok {
                    let more = rest->Ok_0;
                    assert(before.push(ifd@) + more =~= before + (seq![ifd@] + more));
                }
            }
            ifds.push(ifd);
            next_ifd_offset = next;
        }
        proof {
            assert(ifd_views(ifds@) + Seq::<IfdView>::empty() =~= ifd_views(ifds@));
        }
        Ok(ifds)
    }
}

impl Ifd {
    /// Whether an entry carries `tag`.
    pub fn has_entry(&self, tag: u16) -> (r: bool)
        ensures
            r == self@.has(tag),
    {
        self.get_value(tag).is_ok()
    }

    /// Whether an entry carries `tag`, here or in any directory below.
    pub fn has_entry_recursive(&self, tag: u16) -> (r: bool)
        ensures
            r == self@.has_below(tag),
        decreases self,
    {
        if self.has_entry(tag) {
            return true;
        }
        proof {
            lemma_ifd_view(*self);
        }
        let mut i: usize = 0;
        while i < self.sub_ifds.len()
            invariant
                i <= self.sub_ifds@.len(),
                self@.sub_ifds == ifd_views(self.sub_ifds@),
                forall|k: int| 0 <= k < i ==> !(#[trigger] self@.sub_ifds[k]).has_below(tag),
            decreases self.sub_ifds@.len() - i,
        {
            if self.sub_ifds[i].has_entry_recursive(tag) {
                assert(self@.sub_ifds[i as int].has_below(tag));
                return true;
            }
            i = i + 1;
        }
        false
    }

    /// The value of the first entry that carries `tag`. Fails when there
    /// is none.
    pub fn get_value(&self, tag: u16) -> (r: Result<&Value, TiffParserError>)
        ensures
            outcome(r) == lookup(self@.entries, tag),
    {
        let ghost all = self@.entries;
        assert(all.subrange(0, all.len() as int) =~= all);
        let mut i: usize = 0;
        while i < self.entries.len()
            invariant
                i <= self.entries@.len(),
                all == entry_views(self.entries@),
                find(all, tag) == find(all.subrange(i as int, all.len() as int), tag),
            decreases self.entries@.len() - i,
        {
            if self.entries[i].tag == tag {
                return Ok(&self.entries[i].value);
            }
            assert(all.subrange(i as int, all.len() as int).drop_first() =~= all.subrange(
                i + 1,
                all.len() as int,
            ));
            i = i + 1;
        }
        Err(TiffParserError::MissingValue(tag))
    }

    /// The value under `tag` among the directory's own entries or, failing
    /// that, among the entries of its sub-directories, the first
    /// sub-directory first. Fails when none of them has one.
    pub fn get_value_recursive(&self, tag: u16) -> (r: Result<&Value, TiffParserError>)
        ensures
            outcome(r) == (match self@.find_nested(tag) {
                Some(v) => Ok::<ValueView, ErrorView>(v),
                None => Err::<ValueView, ErrorView>(ErrorView::MissingValue(tag)),
            }),
    {
        match self.get_value(tag) {
            Ok(value) => {
                return Ok(value);
            },
            Err(_) => {},
        }
        proof {
            lemma_ifd_view(*self);
        }
        let ghost subs = self@.sub_ifds;
        assert(subs.subrange(0, subs.len() as int) =~= subs);
        let mut i: usize = 0;
        while i < self.sub_ifds.len()
            invariant
                i <= self.sub_ifds@.len(),
                subs == ifd_views(self.sub_ifds@),
                subs == self@.sub_ifds,
                find(self@.entries, tag) is None,
                find_in_any(subs, tag) == find_in_any(
                    subs.subrange(i as int, subs.len() as int),
                    tag,
                ),
            decreases self.sub_ifds@.len() - i,
        {
            match self.sub_ifds[i].get_value(tag) {
                Ok(value) => {
                    return Ok(value);
                },
                Err(_) => {},
            }
            assert(subs.subrange(i as int, subs.len() as int).drop_first() =~= subs.subrange(
                i + 1,
                subs.len() as int,
            ));
            i = i + 1;
        }
        Err(TiffParserError::MissingValue(tag))
    }

    /// The width of the image in pixels, where the directory states it as
    /// an unsigned 16-bit value.
    pub fn image_width(&self) -> (r: Option<u16>)
        ensures
            r == self@.short_under(TAG_IMAGE_WIDTH),
    {
        match self.get_value(TAG_IMAGE_WIDTH) {
            Ok(value) => match value.short() {
                Ok(width) => Some(width),
                Err(_) => None,
            },
            Err(_) => None,
        }
    }

    /// The length of the image in pixels, where the directory states it as
    /// an unsigned 16-bit value.
    pub fn image_length(&self) -> (r: Option<u16>)
        ensures
            r == self@.short_under(TAG_IMAGE_LENGTH),
    {
        match self.get_value(TAG_IMAGE_LENGTH) {
            Ok(value) => match value.short() {
                Ok(length) => Some(length),
                Err(_) => None,
            },
            Err(_) => None,
        }
    }

    /// Whether the directory carries the three tags of an image in strips.
    pub fn is_stripped(&self) -> (r: bool)
        ensures
            r == self@.is_stripped(),
    {
        self.has_entry(TAG_ROWS_PER_STRIP) && self.has_entry(TAG_STRIP_OFFSETS) && self.has_entry(
            TAG_STRIP_BYTE_COUNTS,
        )
    }

    /// Whether the directory carries the four tags of an image in tiles.
    pub fn is_tiled(&self) -> (r: bool)
        ensures
            r == self@.is_tiled(),
    {
        self.has_entry(TAG_TILE_WIDTH) && self.has_entry(TAG_TILE_LENGTH) && self.has_entry(
            TAG_TILE_OFFSETS,
        ) && self.has_entry(TAG_TILE_BYTE_COUNTS)
    }
}

impl Ifd {
    /// Rebuilds the directory's pixels as its tags ask: those of a tiled
    /// image are reconstructed, a directory without an image has none. An
    /// image in strips is not supported; one in strips and in tiles at
    /// once is refused. On failure the directory is left as it was.
    pub fn read_data(&mut self, endianness: Endianness, buf: &[u8]) -> (r: Result<
        (),
        TiffParserError,
    >)
        ensures
            match raster_of(endianness, buf@, old(self)@.entries) {
                Ok(data) => r is Ok && final(self)@ == old(self)@.with_data(data),
                Err(x) => r matches Err(err) && err@ == x && final(self)@ == old(self)@,
            },
    {
        if self.is_stripped() && !self.is_tiled() {
            self.read_data_stripped(endianness, buf)
        } else if self.is_tiled() && !self.is_stripped() {
            self.read_data_tiled(endianness, buf)
        } else if self.is_tiled() && self.is_stripped() {
            Err(TiffParserError::ImageBothTiledAndStripped)
        } else {
            proof {
                lemma_ifd_view(*self);
            }
            self.data = Vec::new();
            proof {
                lemma_ifd_view(*self);
            }
            Ok(())
        }
    }

    /// An image in strips is not reconstructed: this always fails, and
    /// leaves the directory as it was.
    pub fn read_data_stripped(&mut self, _endianness: Endianness, _buf: &[u8]) -> (r: Result<
        (),
        TiffParserError,
    >)
        ensures
            r matches Err(err) && err@ == ErrorView::StripsUnsupported,
            final(self)@ == old(self)@,
    {
        Err(TiffParserError::StripsUnsupported)
    }

    /// Rebuilds the pixels of the directory's tiled image from the tiles
    /// in `buf`. The directory must state tile width, tile length, tile
    /// offsets, tile byte counts, image width, image length, bits per
    /// sample, samples per pixel and compression; the first of them that
    /// is missing is named in the error. On failure the directory is left
    /// as it was.
    pub fn read_data_tiled(&mut self, endianness: Endianness, buf: &[u8]) -> (r: Result<
        (),
        TiffParserError,
    >)
        ensures
            match tiled_raster(endianness, buf@, old(self)@.entries) {
                Ok(data) => r is Ok && final(self)@ == old(self)@.with_data(data),
                Err(x) => r matches Err(err) && err@ == x && final(self)@ == old(self)@,
            },
    {
        let data = reconstruct(endianness, buf, self)?;
        proof {
            lemma_ifd_view(*self);
        }
        self.data = data;
        proof {
            lemma_ifd_view(*self);
        }
        Ok(())
    }
}

/// The index of the first entry that carries `tag`; the number of entries
/// where none does.
pub open spec fn first_index(entries: Seq<IfdEntryView>, tag: u16) -> int
    decreases entries.len(),
{
    if entries.len() == 0 {
        0
    } else if entries[0].tag == tag {
        0
    } else {
        1 + first_index(entries.drop_first(), tag)
    }
}

/// Looking a tag up gives the value of the first entry that carries it, in
/// the order of the entries, and nothing exactly when no entry carries it.
pub proof fn lemma_find_first(entries: Seq<IfdEntryView>, tag: u16)
    ensures
        0 <= first_index(entries, tag) <= entries.len(),
        forall|j: int| 0 <= j < first_index(entries, tag) ==> (#[trigger] entries[j]).tag != tag,
        first_index(entries, tag) < entries.len() ==> entries[first_index(entries, tag)].tag == tag
            && find(entries, tag) == Some(entries[first_index(entries, tag)].value),
        first_index(entries, tag) == entries.len() ==> find(entries, tag) is None,
    decreases entries.len(),
{
    if entries.len() > 0 && entries[0].tag != tag {
        let rest = entries.drop_first();
        lemma_find_first(rest, tag);
        assert forall|j: int| 0 <= j < first_index(entries, tag) implies (#[trigger] entries[j]).tag
            != tag by {
            if j > 0 {
                assert(entries[j] == rest[j - 1]);
            }
        }
    }
}

/// An entry with a type code that names no field type is refused with
/// that code, whatever else it holds.
pub proof fn lemma_unknown_field_type(e: Endianness, buf: Seq<u8>, start: int)
    requires
        0 <= start,
        start + 4 <= buf.len(),
        field_of_code(u16_from(e, buf, start + 2)->Ok_0) is None,
    ensures
        entry_at(e, buf, start) == Err::<IfdEntryView, ErrorView>(
            ErrorView::UnknownFieldType(u16_from(e, buf, start + 2)->Ok_0),
        ),
{
}

/// A value of at most four bytes is decoded from the entry's own last four
/// bytes; a longer one from the bytes at the offset stored there.
pub proof fn lemma_value_location(e: Endianness, buf: Seq<u8>, start: int)
    requires
        0 <= start,
        start + 12 <= buf.len(),
        field_of_code(u16_from(e, buf, start + 2)->Ok_0) is Some,
    ensures
        ({
            let tag = u16_from(e, buf, start)->Ok_0;
            let field = field_of_code(u16_from(e, buf, start + 2)->Ok_0)->Some_0;
            let n = u32_from(e, buf, start + 4)->Ok_0 * field.width();
            let offset = u32_from(e, buf, start + 8)->Ok_0 as int;
            let bytes = if n <= 4 {
                Ok::<Seq<u8>, ErrorView>(buf.subrange(start + 8, start + 8 + n))
            } else {
                window_at(buf, offset, n)
            };
            entry_at(e, buf, start) == (match bytes {
                Err(x) => Err::<IfdEntryView, ErrorView>(x),
                Ok(b) => match decoded(e, field, b) {
                    Err(x) => Err::<IfdEntryView, ErrorView>(x),
                    Ok(value) => Ok::<IfdEntryView, ErrorView>(IfdEntryView { tag, value }),
                },
            })
        }),
{
}

/// No entry that points to sub-directories stays among the entries of a
/// directory: each is replaced by the sub-directories it points to.
pub proof fn lemma_scanned_entries(e: Endianness, buf: Seq<u8>, start: int, k: nat, depth: nat)
    requires
        scanned(e, buf, start, k, depth) is Ok,
    ensures
        forall|i: int|
            0 <= i < scanned(e, buf, start, k, depth)->Ok_0.0.len() ==> pointer_of(
                #[trigger] scanned(e, buf, start, k, depth)->Ok_0.0[i],
            ) is None,
        scanned(e, buf, start, k, depth)->Ok_0.0.len() <= k,
    decreases k,
{
    if k > 0 {
        lemma_scanned_entries(e, buf, start, (k - 1) as nat, depth);
    }
}

/// What holds of every directory that was read: none of its entries points
/// to sub-directories; it does not carry the strip tags; its pixels are
/// those of the tiled image that its entries describe, and none where they
/// describe no image.
pub proof fn lemma_directory(e: Endianness, buf: Seq<u8>, start: int, depth: nat)
    requires
        dir_at(e, buf, start, depth) is Ok,
    ensures
        ({
            let ifd = dir_at(e, buf, start, depth)->Ok_0.0;
            &&& forall|i: int|
                0 <= i < ifd.entries.len() ==> pointer_of(#[trigger] ifd.entries[i]) is None
            &&& !ifd.is_stripped()
            &&& ifd.is_tiled() ==> tiled_raster(e, buf, ifd.entries) == Ok::<Seq<i32>, ErrorView>(
                ifd.data,
            )
            &&& !ifd.is_tiled() ==> ifd.data == Seq::<i32>::empty()
        }),
{
    let n = u16_from(e, buf, start)->Ok_0;
    lemma_scanned_entries(e, buf, start, n as nat, depth);
}

/// A chain holds no more directories than it has room for, and none
/// where it starts at offset zero.
pub proof fn lemma_chain_length(e: Endianness, buf: Seq<u8>, offset: int, depth: nat, room: nat)
    requires
        chain_at(e, buf, offset, depth, room) is Ok,
    ensures
        chain_at(e, buf, offset, depth, room)->Ok_0.len() <= room,
        offset == 0 ==> chain_at(e, buf, offset, depth, room)->Ok_0.len() == 0,
    decreases room,
{
    if offset != 0 && room > 0 {
        let next = dir_at(e, buf, offset, depth)->Ok_0.1;
        lemma_chain_length(e, buf, next as int, depth, (room - 1) as nat);
    }
}

} // verus!
