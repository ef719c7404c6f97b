use vstd::prelude::*;

use crate::error::DecodeError;
use crate::models::TileEntry;
use crate::varint::{
    has_varint, lemma_frame_len_is, read_varint, truncate64, varint_frame_len, varint_value,
};

verus! {

/// The values of `count` varints read one after another from `pos`, with
/// the cursor position after the last one; nothing, where the stream stops
/// short or a varint is overlong.
pub open spec fn spec_varint_seq(data: Seq<u8>, pos: int, count: int) -> Option<(Seq<int>, int)>
    decreases count,
{
    if count <= 0 {
        Some((Seq::empty(), pos))
    } else if has_varint(data, pos) {
        let n = varint_frame_len(data, pos);
        match spec_varint_seq(data, pos + n, count - 1) {
            Some((vals, end)) => Some(
                (seq![truncate64(varint_value(data, pos, n))] + vals, end),
            ),
            None => None,
        }
    } else {
        None
    }
}

/// The tile id of row `i`: the running sum of the delta stream.
pub open spec fn id_at(deltas: Seq<int>, i: int) -> int
    decreases i,
{
    if i <= 0 {
        deltas[0]
    } else {
        id_at(deltas, i - 1) + deltas[i]
    }
}

/// The offset of row `i` under the zero-sentinel rule: a positive value
/// stands for that offset plus one, zero means the row packs right behind
/// the previous one.
pub open spec fn off_at(raw: Seq<int>, lens: Seq<int>, i: int) -> int
    decreases i,
{
    if raw[i] != 0 {
        raw[i] - 1
    } else if i <= 0 {
        0
    } else {
        off_at(raw, lens, i - 1) + lens[i - 1]
    }
}

/// The decoded streams form a valid directory: every id fits 64 bits and
/// strictly grows, and the packed offsets fit 64 bits.
pub open spec fn spec_streams_valid(
    deltas: Seq<int>,
    lens: Seq<int>,
    raw_offs: Seq<int>,
    count: int,
) -> bool {
    forall|i: int|
        0 <= i < count ==> {
            &&& #[trigger] id_at(deltas, i) < 0x1_0000_0000_0000_0000
            &&& (i > 0 ==> deltas[i] != 0)
            &&& off_at(raw_offs, lens, i) < 0x1_0000_0000_0000_0000
        }
}

/// The rows a valid stream quadruple decodes to.
pub open spec fn spec_assemble(
    deltas: Seq<int>,
    runs: Seq<int>,
    lens: Seq<int>,
    raw_offs: Seq<int>,
    count: int,
) -> Seq<TileEntry> {
    Seq::new(
        count as nat,
        |i: int|
            TileEntry {
                tile_id: id_at(deltas, i) as u64,
                offset: off_at(raw_offs, lens, i) as u64,
                length: lens[i] as u64,
                run_length: runs[i] as u64,
            },
    )
}

/// What decoding a directory block yields: an entry count, then four varint
/// streams (delta-coded ids, run lengths, lengths, offsets), strictly
/// increasing ids; nothing on any failure. Trailing bytes are tolerated.
pub open spec fn spec_decode_directory(data: Seq<u8>) -> Option<Seq<TileEntry>> {
    if !has_varint(data, 0) {
        None
    } else {
        let n0 = varint_frame_len(data, 0);
        let count = truncate64(varint_value(data, 0, n0));
        match spec_varint_seq(data, n0, count) {
            None => None,
            Some((deltas, p1)) => match spec_varint_seq(data, p1, count) {
                None => None,
                Some((runs, p2)) => match spec_varint_seq(data, p2, count) {
                    None => None,
                    Some((lens, p3)) => match spec_varint_seq(data, p3, count) {
                        None => None,
                        Some((raw_offs, _p4)) => if spec_streams_valid(
                            deltas,
                            lens,
                            raw_offs,
                            count,
                        ) {
                            Some(spec_assemble(deltas, runs, lens, raw_offs, count))
                        } else {
                            None
                        },
                    },
                },
            },
        }
    }
}

/// Directory rows are sorted strictly by tile id.
pub open spec fn entries_sorted(entries: Seq<TileEntry>) -> bool {
    forall|i: int, j: int|
        0 <= i < j < entries.len() ==> entries[i].tile_id < entries[j].tile_id
}

/// What has been read so far, composed with what the rest of the stream
/// holds, accounts for the whole stream.
spec fn stream_composes(
    data: Seq<u8>,
    ps: int,
    count: int,
    vals: Seq<int>,
    pos: int,
    k: int,
) -> bool {
    match spec_varint_seq(data, pos, count - k) {
        Some((rest, end)) => spec_varint_seq(data, ps, count) == Some::<(Seq<int>, int)>(
            (vals + rest, end),
        ),
        None => spec_varint_seq(data, ps, count) is None,
    }
}

/// Read `count` varints from the cursor. On success the values and the
/// final cursor are exactly what the stream holds.
#[verifier::loop_isolation(false)]
fn read_varint_stream(data: &[u8], pos: &mut usize, count: u64) -> (r: Result<
    Vec<u64>,
    DecodeError,
>)
    ensures
        r is Ok <==> spec_varint_seq(data@, *old(pos) as int, count as int) is Some,
        r matches Ok(v) ==> {
            &&& spec_varint_seq(data@, *old(pos) as int, count as int) matches Some((vals, end))
                && v@.map_values(|x: u64| x as int) == vals && *final(pos) == end && v@.len()
                == count
        },
{
    let ghost ps: int = *pos as int;
    let mut out: Vec<u64> = Vec::new();
    let mut k: u64 = 0;
    while k < count
        invariant
            0 <= k <= count,
            out@.len() == k,
            stream_composes(data@, ps, count as int, out@.map_values(|x: u64| x as int), *pos as int, k as int),
        decreases count - k,
    {
        let ghost vals0 = out@.map_values(|x: u64| x as int);
        let ghost pos_before: int = *pos as int;
        let v = match read_varint(data, pos) {
            Ok(v) => v,
            Err(e) => {
                proof {
                    assert(spec_varint_seq(data@, pos_before, count - k) is None);
                }
                return Err(e);
            },
        };
        proof {
            let n = *pos - pos_before;
            lemma_frame_len_is(data@, pos_before, n);
        }
        out.push(v);
        k = k + 1;
        proof {
            assert(out@.map_values(|x: u64| x as int) =~= vals0 + seq![v as int]);
            match spec_varint_seq(data@, *pos as int, count - k) {
                Some((rest2, end2)) => {
                    assert(spec_varint_seq(data@, pos_before, count - k + 1) == Some::<
                        (Seq<int>, int),
                    >((seq![v as int] + rest2, end2)));
                    assert(vals0 + (seq![v as int] + rest2) =~= (vals0 + seq![v as int]) + rest2);
                },
                None => {},
            }
        }
    }
    proof {
        assert(spec_varint_seq(data@, *pos as int, 0) == Some::<(Seq<int>, int)>(
            (Seq::empty(), *pos as int),
        ));
        assert(out@.map_values(|x: u64| x as int) + Seq::<int>::empty() =~= out@.map_values(
            |x: u64| x as int,
        ));
    }
    Ok(out)
}

/// Decode one directory block: an entry count followed by four varint
/// streams. Fails exactly where the stream spec yields nothing: a varint
/// error, an id that repeats, falls back or overflows, or an offset that
/// overflows under the packing rule.
#[verifier::loop_isolation(false)]
pub fn decode_entries(data: &[u8]) -> (r: Result<Vec<TileEntry>, DecodeError>)
    ensures
        r is Ok <==> spec_decode_directory(data@) is Some,
        r matches Ok(v) ==> Some(v@) == spec_decode_directory(data@),
        r matches Ok(v) ==> entries_sorted(v@),
{
    let mut pos: usize = 0;
    let num_entries = match read_varint(data, &mut pos) {
        Ok(v) => v,
        Err(e) => {
            return Err(e);
        },
    };
    proof {
        lemma_frame_len_is(data@, 0, pos as int);
    }
    let deltas = match read_varint_stream(data, &mut pos, num_entries) {
        Ok(v) => v,
        Err(e) => {
            return Err(e);
        },
    };
    let runs = match read_varint_stream(data, &mut pos, num_entries) {
        Ok(v) => v,
        Err(e) => {
            return Err(e);
        },
    };
    let lens = match read_varint_stream(data, &mut pos, num_entries) {
        Ok(v) => v,
        Err(e) => {
            return Err(e);
        },
    };
    let raw_offs = match read_varint_stream(data, &mut pos, num_entries) {
        Ok(v) => v,
        Err(e) => {
            return Err(e);
        },
    };
    let ghost gdeltas = deltas@.map_values(|x: u64| x as int);
    let ghost glens = lens@.map_values(|x: u64| x as int);
    let ghost graw = raw_offs@.map_values(|x: u64| x as int);
    let ghost gcount: int = num_entries as int;

    // Fold the delta stream into absolute ids, holding them strictly
    // increasing and within 64 bits.
    let count: usize = deltas.len();
    let mut entries: Vec<TileEntry> = Vec::with_capacity(count);
    let mut last: u64 = 0;
    let mut i: usize = 0;
    while i < count
        invariant
            0 <= i <= count,
            count == gcount,
            entries@.len() == i,
            deltas@.len() == count && runs@.len() == count && lens@.len() == count
                && raw_offs@.len() == count,
            forall|j: int|
                0 <= j < i ==> {
                    &&& 0 <= #[trigger] id_at(gdeltas, j) < 0x1_0000_0000_0000_0000
                    &&& (j > 0 ==> gdeltas[j] != 0)
                    &&& 0 <= off_at(graw, glens, j) < 0x1_0000_0000_0000_0000
                    &&& entries@[j] == (TileEntry {
                        tile_id: id_at(gdeltas, j) as u64,
                        offset: off_at(graw, glens, j) as u64,
                        length: glens[j] as u64,
                        run_length: runs@[j],
                    })
                },
            i > 0 ==> last == id_at(gdeltas, i - 1),
            i == 0 ==> last == 0,
        decreases count - i,
    {
        let delta = deltas[i];
        let id = if i == 0 {
            delta
        } else {
            if delta == 0 {
                proof {
                    assert(gdeltas[i as int] == 0);
                    let witness = id_at(gdeltas, i as int);
                    assert(!spec_streams_valid(gdeltas, glens, graw, gcount));
                }
                return Err(DecodeError::Malformed);
            }
            match last.checked_add(delta) {
                Some(x) => x,
                None => {
                    proof {
                        assert(id_at(gdeltas, i as int) == last + delta);
                        assert(!spec_streams_valid(gdeltas, glens, graw, gcount));
                    }
                    return Err(DecodeError::Malformed);
                },
            }
        };
        let length = lens[i];
        let offset = if raw_offs[i] > 0 {
            raw_offs[i] - 1
        } else if i == 0 {
            0
        } else {
            let prev = entries[i - 1];
            match prev.offset.checked_add(prev.length) {
                Some(x) => x,
                None => {
                    proof {
                        assert(off_at(graw, glens, i as int) == off_at(graw, glens, i - 1)
                            + glens[i - 1]);
                        let witness = id_at(gdeltas, i as int);
                        assert(!spec_streams_valid(gdeltas, glens, graw, gcount));
                    }
                    return Err(DecodeError::Malformed);
                },
            }
        };
        proof {
            assert(id_at(gdeltas, i as int) == id);
            assert(off_at(graw, glens, i as int) == offset);
        }
        entries.push(
            TileEntry { tile_id: id, offset, length, run_length: runs[i] },
        );
        last = id;
        i = i + 1;
    }
    proof {
        assert(spec_streams_valid(gdeltas, glens, graw, gcount));
        assert(entries@ =~= spec_assemble(
            gdeltas,
            runs@.map_values(|x: u64| x as int),
            glens,
            graw,
            gcount,
        ));
        assert forall|j: int| 0 <= j < gdeltas.len() implies 0 <= #[trigger] gdeltas[j] by {}
        lemma_ids_sorted(gdeltas, gcount);
        assert forall|a: int, b: int|
            0 <= a < b < entries@.len() implies entries@[a].tile_id < entries@[b].tile_id by {
            assert(id_at(gdeltas, a) < id_at(gdeltas, b));
        }
    }
    Ok(entries)
}

/// Strictly positive deltas make the running ids strictly increasing.
proof fn lemma_ids_sorted(deltas: Seq<int>, count: int)
    requires
        forall|i: int|
            0 <= i < count ==> {
                &&& #[trigger] id_at(deltas, i) < 0x1_0000_0000_0000_0000
                &&& (i > 0 ==> deltas[i] != 0)
            },
        forall|i: int| 0 <= i < deltas.len() ==> 0 <= #[trigger] deltas[i],
    ensures
        forall|i: int, j: int|
            0 <= i < j < count && j < deltas.len() ==> id_at(deltas, i) < id_at(deltas, j),
    decreases count,
{
    assert forall|i: int, j: int|
        0 <= i < j < count && j < deltas.len() implies id_at(deltas, i) < id_at(deltas, j) by {
        assert forall|k: int| 0 < k <= j implies #[trigger] deltas[k] != 0 by {
            assert(id_at(deltas, k) < 0x1_0000_0000_0000_0000);
        }
        lemma_ids_increase(deltas, i, j);
    }
}

proof fn lemma_ids_increase(deltas: Seq<int>, i: int, j: int)
    requires
        0 <= i < j < deltas.len(),
        forall|k: int| 0 <= k < deltas.len() ==> 0 <= #[trigger] deltas[k],
        forall|k: int| 0 < k <= j ==> #[trigger] deltas[k] != 0,
    ensures
        id_at(deltas, i) < id_at(deltas, j),
    decreases j,
{
    if j == i + 1 {
        assert(deltas[j] != 0);
    } else {
        lemma_ids_increase(deltas, i, j - 1);
        assert(deltas[j] != 0);
    }
}

/// Runs never overlap: a terminal entry's run ends before the next entry
/// begins.
pub open spec fn entries_non_overlapping(entries: Seq<TileEntry>) -> bool {
    forall|i: int|
        0 <= i < entries.len() - 1 ==> entries[i].tile_id + entries[i].run_length <= entries[i
            + 1].tile_id
}

/// Entry `p` is the row a directory lookup lands on for `id`: the last row
/// at or below `id`.
pub open spec fn is_predecessor(entries: Seq<TileEntry>, id: int, p: int) -> bool {
    &&& 0 <= p < entries.len()
    &&& entries[p].tile_id <= id
    &&& (p == entries.len() - 1 || entries[p + 1].tile_id > id)
}

/// What a directory search yields for `id`: the last row at or below it,
/// provided that row is a leaf pointer or a run reaching `id`.
pub open spec fn spec_find_entry(entries: Seq<TileEntry>, id: int) -> Option<int> {
    if exists|p: int| is_predecessor(entries, id, p) {
        let p = choose|p: int| is_predecessor(entries, id, p);
        if entries[p].run_length == 0 || id - entries[p].tile_id < entries[p].run_length {
            Some(p)
        } else {
            None
        }
    } else {
        None
    }
}

/// In a sorted directory the predecessor row is unique.
proof fn lemma_predecessor_unique(entries: Seq<TileEntry>, id: int, p1: int, p2: int)
    requires
        entries_sorted(entries),
        is_predecessor(entries, id, p1),
        is_predecessor(entries, id, p2),
    ensures
        p1 == p2,
{
    if p1 < p2 {
        assert(entries[p1 + 1].tile_id <= entries[p2].tile_id || p1 + 1 == p2);
    }
    if p2 < p1 {
        assert(entries[p2 + 1].tile_id <= entries[p1].tile_id || p2 + 1 == p1);
    }
}

/// Locate the entry governing `tile_id` in a sorted directory: binary-search
/// for the last row at or below it, then hand that row back if it is a leaf
/// pointer or a run covering the id.
#[verifier::loop_isolation(false)]
pub fn search_entries(entries: &[TileEntry], tile_id: u64) -> (r: Option<usize>)
    requires
        entries_sorted(entries@),
    ensures
        r is Some <==> spec_find_entry(entries@, tile_id as int) is Some,
        r matches Some(k) ==> spec_find_entry(entries@, tile_id as int) == Some(k as int),
{
    let n = entries.len();
    if n == 0 {
        return None;
    }
    let mut lo: usize = 0;
    let mut hi: usize = n;
    while lo < hi
        invariant
            0 <= lo <= hi <= n,
            forall|j: int| 0 <= j < lo ==> entries@[j].tile_id <= tile_id,
            forall|j: int| hi <= j < n ==> entries@[j].tile_id > tile_id,
        decreases hi - lo,
    {
        let mid = lo + (hi - lo) / 2;
        if entries[mid].tile_id <= tile_id {
            lo = mid + 1;
        } else {
            hi = mid;
        }
    }
    if lo == 0 {
        assert forall|p: int| !is_predecessor(entries@, tile_id as int, p) by {
            if 0 <= p < entries@.len() {
                assert(entries@[p].tile_id > tile_id);
            }
        }
        return None;
    }
    let p = lo - 1;
    proof {
        assert(is_predecessor(entries@, tile_id as int, p as int));
        let cp = choose|q: int| is_predecessor(entries@, tile_id as int, q);
        lemma_predecessor_unique(entries@, tile_id as int, cp, p as int);
    }
    let e = entries[p];
    if e.run_length == 0 || tile_id - e.tile_id < e.run_length {
        Some(p)
    } else {
        None
    }
}

/// A terminal entry covers `id` when its run reaches it.
pub open spec fn entry_covers(e: TileEntry, id: int) -> bool {
    e.run_length > 0 && e.tile_id <= id < e.tile_id + e.run_length
}

/// Search soundness: in a sorted directory whose runs do not overlap, the
/// search lands on the terminal entry covering `id` whenever the directory
/// holds one, and yields nothing only when no entry covers `id`.
pub proof fn lemma_search_sound(entries: Seq<TileEntry>, id: u64)
    requires
        entries_sorted(entries),
        entries_non_overlapping(entries),
    ensures
        forall|i: int|
            0 <= i < entries.len() && #[trigger] entry_covers(entries[i], id as int)
                ==> spec_find_entry(entries, id as int) == Some(i),
        spec_find_entry(entries, id as int) is None ==> forall|i: int|
            0 <= i < entries.len() ==> !#[trigger] entry_covers(entries[i], id as int),
{
    assert forall|i: int|
        0 <= i < entries.len() && #[trigger] entry_covers(entries[i], id as int)
            implies spec_find_entry(entries, id as int) == Some(i) by {
        if i < entries.len() - 1 {
            assert(entries[i].tile_id + entries[i].run_length <= entries[i + 1].tile_id);
        }
        assert(is_predecessor(entries, id as int, i));
        let cp = choose|q: int| is_predecessor(entries, id as int, q);
        lemma_predecessor_unique(entries, id as int, cp, i);
    }
}

} // verus!
