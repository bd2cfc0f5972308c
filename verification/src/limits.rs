//! What the limits on chaining and nesting mean.
//!
//! A chain may hold one directory more than the buffer has bytes, and
//! sub-directories may be nested as deep as the buffer has bytes. Whatever is read, or refused for
//! another reason, within these limits is read alike with wider ones; and
//! the limits are reached only where the directories lead back into
//! themselves, so that following them would never end.

use vstd::prelude::*;
use crate::buffer::{u16_from, u32_from};
use crate::endianness::Endianness;
use crate::error::ErrorView;
use crate::ifd::{chain_at, chain_room, dir_at, entry_at, pointer_of, scanned, IfdView};
use crate::raster::lemma_raster_errors;
use crate::tiff_file::{byte_order_of, file_of};

verus! {

/// The offset that the directory at index `offset` states for the next,
/// and zero where there is no such directory.
pub open spec fn next_offset(e: Endianness, buf: Seq<u8>, offset: int, depth: nat) -> int {
    if offset == 0 {
        0
    } else {
        match dir_at(e, buf, offset, depth) {
            Ok((_, next)) => next as int,
            Err(_) => 0,
        }
    }
}

/// The offset of directory `i`, counted from zero, of the chain that
/// starts at index `offset`; zero where the chain has ended or failed
/// before.
pub open spec fn chain_offset(e: Endianness, buf: Seq<u8>, offset: int, depth: nat, i: nat) -> int
    decreases i,
{
    if i == 0 {
        offset
    } else {
        chain_offset(e, buf, next_offset(e, buf, offset, depth), depth, (i - 1) as nat)
    }
}

/// Whether the chain that starts at index `offset` has `n` directories
/// that can all be read.
pub open spec fn chain_reaches(e: Endianness, buf: Seq<u8>, offset: int, depth: nat, n: nat) -> bool {
    forall|i: nat|
        i < n ==> chain_offset(e, buf, offset, depth, i) != 0 && (#[trigger] dir_at(
            e,
            buf,
            chain_offset(e, buf, offset, depth, i),
            depth,
        )) is Ok
}

/// A chain is refused as a loop only where one of its directories is
/// refused so, or where it has more directories than it has room for.
pub proof fn lemma_chain_loop(e: Endianness, buf: Seq<u8>, offset: int, depth: nat, room: nat)
    requires
        chain_at(e, buf, offset, depth, room) == Err::<Seq<IfdView>, ErrorView>(
            ErrorView::DirectoryLoop,
        ),
    ensures
        chain_reaches(e, buf, offset, depth, room) || exists|i: nat|
            i < room && chain_offset(e, buf, offset, depth, i) != 0 && #[trigger] dir_at(
                e,
                buf,
                chain_offset(e, buf, offset, depth, i),
                depth,
            ) == Err::<(IfdView, usize), ErrorView>(ErrorView::DirectoryLoop),
    decreases room,
{
    if room > 0 {
        if dir_at(e, buf, offset, depth) is Ok {
            let next = next_offset(e, buf, offset, depth);
            lemma_chain_loop(e, buf, next, depth, (room - 1) as nat);
            if chain_reaches(e, buf, next, depth, (room - 1) as nat) {
                assert forall|i: nat| i < room implies chain_offset(e, buf, offset, depth, i) != 0
                    && (#[trigger] dir_at(
                    e,
                    buf,
                    chain_offset(e, buf, offset, depth, i),
                    depth,
                )) is Ok by {
                    if i > 0 {
                        let k = (i - 1) as nat;
                        assert(chain_offset(e, buf, offset, depth, i) == chain_offset(
                            e,
                            buf,
                            next,
                            depth,
                            k,
                        ));
                    }
                }
            } else {
                let k = choose|k: nat|
                    k < room - 1 && chain_offset(e, buf, next, depth, k) != 0 && #[trigger] dir_at(
                        e,
                        buf,
                        chain_offset(e, buf, next, depth, k),
                        depth,
                    ) == Err::<(IfdView, usize), ErrorView>(ErrorView::DirectoryLoop);
                assert(chain_offset(e, buf, offset, depth, k + 1) == chain_offset(
                    e,
                    buf,
                    next,
                    depth,
                    k,
                ));
                assert(dir_at(e, buf, chain_offset(e, buf, offset, depth, k + 1), depth) == Err::<
                    (IfdView, usize),
                    ErrorView,
                >(ErrorView::DirectoryLoop));
            }
        } else {
            assert(dir_at(e, buf, chain_offset(e, buf, offset, depth, 0), depth) == Err::<
                (IfdView, usize),
                ErrorView,
            >(ErrorView::DirectoryLoop));
        }
    }
}

/// The offsets of the first `n` directories of the chain that starts at
/// index `offset`.
pub open spec fn chain_offsets(e: Endianness, buf: Seq<u8>, offset: int, depth: nat, n: nat) -> Seq<
    int,
> {
    Seq::new(n, |i: int| chain_offset(e, buf, offset, depth, i as nat))
}

/// Whether the chain that starts at index `offset` has `n` directories
/// that can all be read, two of them the same: such a chain leads back
/// into itself, and following it would never end.
pub open spec fn chain_repeats(e: Endianness, buf: Seq<u8>, offset: int, depth: nat, n: nat) -> bool {
    chain_reaches(e, buf, offset, depth, n) && !chain_offsets(
        e,
        buf,
        offset,
        depth,
        n,
    ).no_duplicates()
}

/// More numbers than there are places for them hold one number twice.
pub proof fn lemma_repeat(numbers: Seq<int>, places: int)
    requires
        0 <= places < numbers.len(),
        forall|i: int| 0 <= i < numbers.len() ==> 0 <= #[trigger] numbers[i] < places,
    ensures
        !numbers.no_duplicates(),
{
    if places == 0 {
        assert(0 <= numbers[0] < places);
    } else if numbers.no_duplicates() {
        numbers.unique_seq_to_set();
        vstd::set_lib::lemma_int_range(0, places);
        assert(numbers.to_set().subset_of(vstd::set_lib::set_int_range(0, places))) by {
            assert forall|x: int| numbers.to_set().contains(x) implies 0 <= x < places by {
                let i = choose|i: int| 0 <= i < numbers.len() && numbers[i] == x;
                assert(0 <= numbers[i] < places);
            }
        }
        vstd::set_lib::lemma_len_subset(numbers.to_set(), vstd::set_lib::set_int_range(0, places));
    }
}

/// A chain with as many directories as the buffer has bytes holds one of
/// them twice.
pub proof fn lemma_long_chain_repeats(
    e: Endianness,
    buf: Seq<u8>,
    offset: int,
    depth: nat,
    n: nat,
)
    requires
        n > 0,
        n >= buf.len(),
        chain_reaches(e, buf, offset, depth, n),
    ensures
        chain_repeats(e, buf, offset, depth, n),
{
    let offsets = chain_offsets(e, buf, offset, depth, n);
    assert forall|i: int| 0 <= i < n implies 0 <= #[trigger] offsets[i] < buf.len() by {
        assert(dir_at(e, buf, chain_offset(e, buf, offset, depth, i as nat), depth) is Ok);
    }
    assert(buf.len() > 0) by {
        assert(0 <= offsets[0] < buf.len());
    }
    if n > buf.len() {
        lemma_repeat(offsets, buf.len() as int);
    } else {
        // no directory starts in the last byte, so one place less is taken
        assert forall|i: int| 0 <= i < n implies 0 <= #[trigger] offsets[i] < buf.len() - 1 by {
            assert(dir_at(e, buf, chain_offset(e, buf, offset, depth, i as nat), depth) is Ok);
        }
        lemma_repeat(offsets, buf.len() - 1);
    }
}

/// Whether a result is the refusal of a loop.
pub open spec fn is_loop<T>(r: Result<T, ErrorView>) -> bool {
    r == Err::<T, ErrorView>(ErrorView::DirectoryLoop)
}

/// The limits decide nothing but whether a loop is reported: a directory
/// that is read, or refused for any other reason, with sub-directories
/// nested `depth` deep is read to the same result with any deeper nesting
/// allowed.
pub proof fn lemma_deeper_directory(
    e: Endianness,
    buf: Seq<u8>,
    start: int,
    depth: nat,
    deeper: nat,
)
    requires
        depth <= deeper,
        !is_loop(dir_at(e, buf, start, depth)),
    ensures
        dir_at(e, buf, start, deeper) == dir_at(e, buf, start, depth),
    decreases depth, 2nat, 0nat,
{
    if u16_from(e, buf, start) is Ok {
        let n = u16_from(e, buf, start)->Ok_0 as nat;
        lemma_deeper_entries(e, buf, start, n, depth, deeper);
    }
}

/// The entries of a directory, read or refused for any reason but a loop,
/// are read to the same result with any deeper nesting allowed.
pub proof fn lemma_deeper_entries(
    e: Endianness,
    buf: Seq<u8>,
    start: int,
    k: nat,
    depth: nat,
    deeper: nat,
)
    requires
        depth <= deeper,
        !is_loop(scanned(e, buf, start, k, depth)),
    ensures
        scanned(e, buf, start, k, deeper) == scanned(e, buf, start, k, depth),
    decreases depth, 1nat, k,
{
    if k > 0 {
        lemma_deeper_entries(e, buf, start, (k - 1) as nat, depth, deeper);
        if scanned(e, buf, start, (k - 1) as nat, depth) is Ok {
            let entry = entry_at(e, buf, start + 2 + 12 * (k - 1));
            if entry is Ok && pointer_of(entry->Ok_0) is Some {
                let offsets = pointer_of(entry->Ok_0)->Some_0;
                if offsets.len() > 0 && offsets[0] != 0 {
                    lemma_longer_chain(
                        e,
                        buf,
                        offsets[0] as int,
                        (depth - 1) as nat,
                        (deeper - 1) as nat,
                        chain_room(buf),
                        chain_room(buf),
                    );
                }
            }
        }
    }
}

/// A chain, read or refused for any reason but a loop, is read to the same
/// result with any deeper nesting and any more room allowed.
pub proof fn lemma_longer_chain(
    e: Endianness,
    buf: Seq<u8>,
    offset: int,
    depth: nat,
    deeper: nat,
    room: nat,
    more: nat,
)
    requires
        depth <= deeper,
        room <= more,
        !is_loop(chain_at(e, buf, offset, depth, room)),
    ensures
        chain_at(e, buf, offset, deeper, more) == chain_at(e, buf, offset, depth, room),
    decreases depth, 3nat, room,
{
    if offset != 0 && room > 0 {
        lemma_deeper_directory(e, buf, offset, depth, deeper);
        if dir_at(e, buf, offset, depth) is Ok {
            let next = dir_at(e, buf, offset, depth)->Ok_0.1 as int;
            lemma_longer_chain(
                e,
                buf,
                next,
                depth,
                deeper,
                (room - 1) as nat,
                (more - 1) as nat,
            );
        }
    }
}

/// Whether entry `j` of the directory at index `start` points to a chain
/// of sub-directories that starts at index `head`.
pub open spec fn points_to(e: Endianness, buf: Seq<u8>, start: int, j: int, head: int) -> bool {
    let entry = entry_at(e, buf, start + 2 + 12 * j);
    &&& u16_from(e, buf, start) is Ok
    &&& 0 <= j < u16_from(e, buf, start)->Ok_0
    &&& entry is Ok
    &&& pointer_of(entry->Ok_0) is Some
    &&& pointer_of(entry->Ok_0)->Some_0.len() > 0
    &&& pointer_of(entry->Ok_0)->Some_0[0] == head
    &&& head != 0
}

/// Whether the directory at index `inner` is nested directly in the one at
/// index `outer`: it is one of a chain that an entry of `outer` points to.
/// `depth` is how deep sub-directories may be nested below `inner`.
pub open spec fn nested_in(e: Endianness, buf: Seq<u8>, outer: int, inner: int, depth: nat) -> bool {
    inner != 0 && exists|j: int, head: int, i: nat|
        points_to(e, buf, outer, j, head) && inner == #[trigger] trigger_nested(
            j,
            chain_offset(e, buf, head, depth, i),
        )
}

/// The second of two values; it marks where a nested directory is found.
pub open spec fn trigger_nested(j: int, offset: int) -> int {
    offset
}

/// Whether each directory of a trail but the first is nested directly in
/// the one before it, where `depth` is how deep sub-directories may be
/// nested below the first; and whether the count of every one of them can
/// be read.
pub open spec fn is_trail(e: Endianness, buf: Seq<u8>, trail: Seq<int>, depth: nat) -> bool {
    &&& trail.len() <= depth + 1
    &&& forall|k: int| 0 <= k < trail.len() ==> u16_from(e, buf, #[trigger] trail[k]) is Ok
    &&& forall|k: int|
        0 <= k < trail.len() - 1 ==> nested_in(
            e,
            buf,
            #[trigger] trail[k],
            trail[k + 1],
            (depth - k - 1) as nat,
        )
}

/// Where reading entries reports a loop, one of them points to a chain of
/// sub-directories that may not be nested, or that reports the loop.
pub proof fn lemma_entries_loop(e: Endianness, buf: Seq<u8>, start: int, k: nat, depth: nat) -> (r:
    (int, int))
    requires
        u16_from(e, buf, start) is Ok,
        k <= u16_from(e, buf, start)->Ok_0,
        is_loop(scanned(e, buf, start, k, depth)),
    ensures
        points_to(e, buf, start, r.0, r.1),
        depth == 0 || is_loop(chain_at(e, buf, r.1, (depth - 1) as nat, chain_room(buf))),
    decreases k,
{
    if is_loop(scanned(e, buf, start, (k - 1) as nat, depth)) {
        lemma_entries_loop(e, buf, start, (k - 1) as nat, depth)
    } else {
        let entry = entry_at(e, buf, start + 2 + 12 * (k - 1))->Ok_0;
        (k - 1, pointer_of(entry)->Some_0[0] as int)
    }
}

/// Where reading a directory reports a loop, reading its entries does.
pub proof fn lemma_directory_loop(e: Endianness, buf: Seq<u8>, start: int, depth: nat)
    requires
        is_loop(dir_at(e, buf, start, depth)),
    ensures
        u16_from(e, buf, start) is Ok,
        is_loop(scanned(e, buf, start, u16_from(e, buf, start)->Ok_0 as nat, depth)),
{
    let n = u16_from(e, buf, start)->Ok_0;
    if scanned(e, buf, start, n as nat, depth) is Ok {
        lemma_raster_errors(e, buf, scanned(e, buf, start, n as nat, depth)->Ok_0.0);
    }
}

/// A trail below a directory that is nested in another is a trail below
/// that other, with the other put first.
pub proof fn lemma_longer_trail(
    e: Endianness,
    buf: Seq<u8>,
    outer: int,
    rest: Seq<int>,
    depth: nat,
)
    requires
        depth > 0,
        rest.len() >= 1,
        u16_from(e, buf, outer) is Ok,
        nested_in(e, buf, outer, rest[0], (depth - 1) as nat),
        is_trail(e, buf, rest, (depth - 1) as nat),
    ensures
        is_trail(e, buf, seq![outer] + rest, depth),
{
    let trail = seq![outer] + rest;
    assert forall|k: int| 0 <= k < trail.len() - 1 implies nested_in(
        e,
        buf,
        #[trigger] trail[k],
        trail[k + 1],
        (depth - k - 1) as nat,
    ) by {
        if k > 0 {
            assert(trail[k] == rest[k - 1]);
            assert(trail[k + 1] == rest[k]);
            assert(nested_in(e, buf, rest[k - 1], rest[k], ((depth - 1) - (k - 1) - 1) as nat));
        } else {
            assert(trail[1] == rest[0]);
        }
    }
    assert forall|k: int| 0 <= k < trail.len() implies u16_from(e, buf, #[trigger] trail[k])
        is Ok by {
        if k > 0 {
            assert(trail[k] == rest[k - 1]);
        }
    }
}

/// Whether a trail ends where nothing can be nested any deeper, or at a
/// directory with an entry that points to a chain with more directories
/// than the buffer has bytes.
pub open spec fn ends_at_a_limit(e: Endianness, buf: Seq<u8>, trail: Seq<int>, depth: nat) -> bool {
    trail.len() == depth + 1 || exists|j: int, head: int|
        points_to(e, buf, trail.last(), j, head) && #[trigger] chain_reaches(
            e,
            buf,
            trigger_nested(j, head),
            (depth - trail.len()) as nat,
            chain_room(buf),
        )
}

/// A directory by itself is a trail that ends at a limit where nothing
/// can be nested below it, or where one of its entries points to a chain
/// with more directories than the buffer has bytes.
pub proof fn lemma_trail_of_one(
    e: Endianness,
    buf: Seq<u8>,
    start: int,
    depth: nat,
    j: int,
    head: int,
)
    requires
        points_to(e, buf, start, j, head),
        depth == 0 || chain_reaches(e, buf, head, (depth - 1) as nat, chain_room(buf)),
    ensures
        is_trail(e, buf, seq![start], depth),
        ends_at_a_limit(e, buf, seq![start], depth),
{
    let alone = seq![start];
    assert(alone.last() == start);
    if depth > 0 {
        assert(chain_reaches(
            e,
            buf,
            trigger_nested(j, head),
            (depth - 1) as nat,
            chain_room(buf),
        ));
    }
}

/// A trail that ends at a limit still does so with the directory put
/// first in which its first is nested.
pub proof fn lemma_longer_trail_ends(
    e: Endianness,
    buf: Seq<u8>,
    outer: int,
    rest: Seq<int>,
    depth: nat,
)
    requires
        depth > 0,
        rest.len() >= 1,
        ends_at_a_limit(e, buf, rest, (depth - 1) as nat),
    ensures
        ends_at_a_limit(e, buf, seq![outer] + rest, depth),
{
    let trail = seq![outer] + rest;
    assert(trail.last() == rest.last());
    assert(trail.len() == rest.len() + 1);
    if rest.len() != depth {
        let (j, head) = choose|j: int, head: int|
            points_to(e, buf, rest.last(), j, head) && #[trigger] chain_reaches(
                e,
                buf,
                trigger_nested(j, head),
                ((depth - 1) as nat - rest.len()) as nat,
                chain_room(buf),
            );
        assert(((depth - 1) as nat - rest.len()) as nat == (depth - trail.len()) as nat);
        assert(chain_reaches(
            e,
            buf,
            trigger_nested(j, head),
            (depth - trail.len()) as nat,
            chain_room(buf),
        ));
    }
}

/// A member of a chain that an entry points to is nested in the directory
/// of that entry.
pub proof fn lemma_member_is_nested(
    e: Endianness,
    buf: Seq<u8>,
    outer: int,
    j: int,
    head: int,
    depth: nat,
    i: nat,
)
    requires
        points_to(e, buf, outer, j, head),
        chain_offset(e, buf, head, depth, i) != 0,
    ensures
        nested_in(e, buf, outer, chain_offset(e, buf, head, depth, i), depth),
{
    let inner = chain_offset(e, buf, head, depth, i);
    assert(inner == trigger_nested(j, chain_offset(e, buf, head, depth, i)));
}

/// Where reading a directory reports a loop, there is a trail of
/// directories, each nested in the one before, from that directory to one
/// that cannot be nested any deeper, or to one with a chain below it that
/// has more directories than the buffer has bytes.
pub proof fn lemma_loop_trail(e: Endianness, buf: Seq<u8>, start: int, depth: nat) -> (trail: Seq<
    int,
>)
    requires
        is_loop(dir_at(e, buf, start, depth)),
    ensures
        trail.len() >= 1,
        trail[0] == start,
        is_trail(e, buf, trail, depth),
        ends_at_a_limit(e, buf, trail, depth),
    decreases depth,
{
    lemma_directory_loop(e, buf, start, depth);
    let n = u16_from(e, buf, start)->Ok_0;
    let (j, head) = lemma_entries_loop(e, buf, start, n as nat, depth);
    if depth == 0 {
        lemma_trail_of_one(e, buf, start, depth, j, head);
        seq![start]
    } else {
        let below = (depth - 1) as nat;
        lemma_chain_loop(e, buf, head, below, chain_room(buf));
        if chain_reaches(e, buf, head, below, chain_room(buf)) {
            lemma_trail_of_one(e, buf, start, depth, j, head);
            seq![start]
        } else {
            let i = choose|i: nat|
                i < chain_room(buf) && chain_offset(e, buf, head, below, i) != 0
                    && #[trigger] dir_at(
                    e,
                    buf,
                    chain_offset(e, buf, head, below, i),
                    below,
                ) == Err::<(IfdView, usize), ErrorView>(ErrorView::DirectoryLoop);
            let inner = chain_offset(e, buf, head, below, i);
            let rest = lemma_loop_trail(e, buf, inner, below);
            lemma_member_is_nested(e, buf, start, j, head, below, i);
            lemma_longer_trail(e, buf, start, rest, depth);
            lemma_longer_trail_ends(e, buf, start, rest, depth);
            seq![start] + rest
        }
    }
}

/// Whether the directories below the one at index `start` lead back:
/// there is a trail from it that holds a directory twice, or that ends at a
/// directory with an entry whose chain holds a directory twice.
pub open spec fn leads_back(e: Endianness, buf: Seq<u8>, start: int, depth: nat) -> bool {
    exists|trail: Seq<int>|
        {
            &&& trail.len() >= 1
            &&& trail[0] == start
            &&& #[trigger] is_trail(e, buf, trail, depth)
            &&& !trail.no_duplicates() || exists|j: int, head: int|
                points_to(e, buf, trail.last(), j, head) && #[trigger] chain_repeats(
                    e,
                    buf,
                    trigger_nested(j, head),
                    (depth - trail.len()) as nat,
                    chain_room(buf),
                )
        }
}

/// A loop is reported for a directory only where the directories below it
/// lead back, so that following them would never end: with sub-directories
/// allowed to nest as deep as the buffer has bytes, the limits are reached
/// in no other way.
pub proof fn lemma_loop_leads_back(e: Endianness, buf: Seq<u8>, start: int, depth: nat)
    requires
        depth >= buf.len(),
        is_loop(dir_at(e, buf, start, depth)),
    ensures
        leads_back(e, buf, start, depth),
{
    let trail = lemma_loop_trail(e, buf, start, depth);
    assert(u16_from(e, buf, trail[0]) is Ok);
    if trail.len() == depth + 1 {
        assert forall|k: int| 0 <= k < trail.len() implies 0 <= #[trigger] trail[k] < buf.len() by {
            assert(u16_from(e, buf, trail[k]) is Ok);
        }
        lemma_repeat(trail, buf.len() as int);
    } else {
        let (j, head) = choose|j: int, head: int|
            points_to(e, buf, trail.last(), j, head) && #[trigger] chain_reaches(
                e,
                buf,
                trigger_nested(j, head),
                (depth - trail.len()) as nat,
                chain_room(buf),
            );
        lemma_long_chain_repeats(e, buf, head, (depth - trail.len()) as nat, chain_room(buf));
        assert(chain_repeats(
            e,
            buf,
            trigger_nested(j, head),
            (depth - trail.len()) as nat,
            chain_room(buf),
        ));
    }
    assert(is_trail(e, buf, trail, depth));
}

/// A loop is reported for a chain only where the chain holds a directory
/// twice, or where the directories below one of its own lead back.
pub proof fn lemma_chain_leads_back(e: Endianness, buf: Seq<u8>, offset: int, depth: nat)
    requires
        depth >= buf.len(),
        is_loop(chain_at(e, buf, offset, depth, chain_room(buf))),
    ensures
        chain_repeats(e, buf, offset, depth, chain_room(buf)) || exists|i: nat|
            i < chain_room(buf) && #[trigger] leads_back(
                e,
                buf,
                chain_offset(e, buf, offset, depth, i),
                depth,
            ),
{
    lemma_chain_loop(e, buf, offset, depth, chain_room(buf));
    if chain_reaches(e, buf, offset, depth, chain_room(buf)) {
        lemma_long_chain_repeats(e, buf, offset, depth, chain_room(buf));
    } else {
        let i = choose|i: nat|
            i < chain_room(buf) && chain_offset(e, buf, offset, depth, i) != 0 && #[trigger] dir_at(
                e,
                buf,
                chain_offset(e, buf, offset, depth, i),
                depth,
            ) == Err::<(IfdView, usize), ErrorView>(ErrorView::DirectoryLoop);
        lemma_loop_leads_back(e, buf, chain_offset(e, buf, offset, depth, i), depth);
    }
}

/// A loop is reported for a file only where the chain of its directories
/// holds a directory twice, or where the directories below one of them
/// lead back.
pub proof fn lemma_file_leads_back(buf: Seq<u8>)
    requires
        is_loop(file_of(buf)),
    ensures
        ({
            let e = byte_order_of(buf)->Ok_0;
            let first = u32_from(e, buf, 4)->Ok_0 as int;
            &&& byte_order_of(buf) is Ok
            &&& u32_from(e, buf, 4) is Ok
            &&& chain_repeats(e, buf, first, buf.len(), chain_room(buf)) || exists|
                i: nat,
            |
                i < chain_room(buf) && #[trigger] leads_back(
                    e,
                    buf,
                    chain_offset(e, buf, first, buf.len(), i),
                    buf.len(),
                )
        }),
{
    let e = byte_order_of(buf)->Ok_0;
    let first = u32_from(e, buf, 4)->Ok_0 as int;
    lemma_chain_leads_back(e, buf, first, buf.len());
}

} // verus!
