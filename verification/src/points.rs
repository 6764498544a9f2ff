use vstd::prelude::*;
use crate::text::{split_on, split_spec, views, copy_range};

verus! {

/// The space byte that separates the coordinates of a point.
pub open spec fn space() -> Seq<u8> {
    seq![32u8]
}

/// The coordinate fields of a point line from token `j` on: tokens are read in
/// order until an empty token is met or three have been read.
pub open spec fn leading_fields(tokens: Seq<Seq<u8>>, j: int) -> Seq<Seq<u8>>
    decreases tokens.len() - j,
{
    if j < 0 || j >= tokens.len() || j >= 3 || tokens[j].len() == 0 {
        Seq::empty()
    } else {
        seq![tokens[j]] + leading_fields(tokens, j + 1)
    }
}

/// The coordinate fields of one point line (split at spaces).
pub open spec fn point_fields_spec(line: Seq<u8>) -> Seq<Seq<u8>> {
    leading_fields(split_spec(line, space()), 0)
}

/// The coordinate fields of every point of a point text whose points are
/// separated by `line_sep`; every piece, an empty one too, is a point.
pub open spec fn points_spec(text: Seq<u8>, line_sep: Seq<u8>) -> Seq<Seq<Seq<u8>>> {
    split_spec(text, line_sep).map_values(|line: Seq<u8>| point_fields_spec(line))
}

/// The views of a sequence of field lists.
pub open spec fn nested_views(points: Seq<Vec<Vec<u8>>>) -> Seq<Seq<Seq<u8>>> {
    points.map_values(|fields: Vec<Vec<u8>>| views(fields@))
}

/// At most three fields are read, and none of them is empty.
pub proof fn lemma_leading_fields_shape(tokens: Seq<Seq<u8>>, j: int)
    requires
        0 <= j,
    ensures
        leading_fields(tokens, j).len() <= if j <= 3 { 3 - j } else { 0 },
        forall|k: int|
            0 <= k < leading_fields(tokens, j).len() ==> #[trigger] leading_fields(tokens, j)[k]
                == tokens[j + k] && tokens[j + k].len() > 0,
    decreases tokens.len() - j,
{
    if j < 0 || j >= tokens.len() || j >= 3 || tokens[j].len() == 0 {
    } else {
        lemma_leading_fields_shape(tokens, j + 1);
        let rest = leading_fields(tokens, j + 1);
        assert forall|k: int|
            0 <= k < leading_fields(tokens, j).len() implies #[trigger] leading_fields(
            tokens,
            j,
        )[k] == tokens[j + k] && tokens[j + k].len() > 0 by {
            if k > 0 {
                assert(leading_fields(tokens, j)[k] == rest[k - 1]);
            }
        }
    }
}

/// The coordinate fields of one point line: the space-separated tokens up to
/// the first empty one, at most three.
pub fn point_fields(line: &[u8]) -> (fields: Vec<Vec<u8>>)
    ensures
        views(fields@) == point_fields_spec(line@),
{
    let separator: [u8; 1] = [32u8];
    assert(separator@ =~= space());
    let tokens = split_on(line, separator.as_slice());
    let ghost spec_tokens = split_spec(line@, space());
    let mut fields: Vec<Vec<u8>> = Vec::new();
    let mut j: usize = 0;
    while j < tokens.len()
        invariant
            views(tokens@) == spec_tokens,
            spec_tokens == split_spec(line@, space()),
            j <= tokens@.len(),
            j <= 3,
            views(fields@) + leading_fields(spec_tokens, j as int) == leading_fields(
                spec_tokens,
                0,
            ),
        ensures
            j >= tokens@.len() || j >= 3 || spec_tokens[j as int].len() == 0,
            views(fields@) + leading_fields(spec_tokens, j as int) == leading_fields(
                spec_tokens,
                0,
            ),
        decreases tokens.len() - j,
    {
        assert(tokens@[j as int]@ == spec_tokens[j as int]);
        if tokens[j].len() == 0 || j >= 3 {
            break;
        }
        let ghost before = views(fields@);
        let token = copy_range(tokens[j].as_slice(), 0, tokens[j].len());
        assert(token@ =~= spec_tokens[j as int]);
        fields.push(token);
        j = j + 1;
        assert(views(fields@) =~= before.push(token@));
        assert(views(fields@) + leading_fields(spec_tokens, j as int) =~= before + leading_fields(
            spec_tokens,
            (j - 1) as int,
        ));
    }
    assert(leading_fields(spec_tokens, j as int) =~= Seq::<Seq<u8>>::empty());
    assert(views(fields@) =~= views(fields@) + leading_fields(spec_tokens, j as int));
    fields
}

/// The coordinate fields of every point of a point text: the text is cut at
/// `line_sep` (a line feed for a file, `ZZ` for a remote scan) and each piece
/// is read as a point line.
pub fn parse_points(text: &[u8], line_sep: &[u8]) -> (points: Vec<Vec<Vec<u8>>>)
    requires
        line_sep.len() > 0,
    ensures
        nested_views(points@) == points_spec(text@, line_sep@),
{
    let lines = split_on(text, line_sep);
    let ghost spec_lines = split_spec(text@, line_sep@);
    let mut points: Vec<Vec<Vec<u8>>> = Vec::new();
    let mut i: usize = 0;
    while i < lines.len()
        invariant
            views(lines@) == spec_lines,
            spec_lines == split_spec(text@, line_sep@),
            i <= lines@.len(),
            nested_views(points@) == spec_lines.subrange(0, i as int).map_values(
                |line: Seq<u8>| point_fields_spec(line),
            ),
        decreases lines.len() - i,
    {
        assert(lines@[i as int]@ == spec_lines[i as int]);
        let ghost prev = nested_views(points@);
        let fields = point_fields(lines[i].as_slice());
        points.push(fields);
        i = i + 1;
        assert(nested_views(points@) =~= prev.push(point_fields_spec(spec_lines[i - 1])));
        assert(nested_views(points@) =~= spec_lines.subrange(0, i as int).map_values(
            |line: Seq<u8>| point_fields_spec(line),
        ));
    }
    assert(spec_lines.subrange(0, i as int) =~= spec_lines);
    points
}


/// Lays points out coordinate after coordinate in a buffer of `capacity`
/// values, the rest of which holds `zero`.
pub fn flatten_points<T: Copy>(points: &[[T; 3]], zero: T, capacity: usize) -> (flat: Vec<T>)
    requires
        3 * points.len() <= capacity,
    ensures
        flat.len() == capacity,
        forall|i: int, j: int|
            #![trigger points@[i][j]]
            0 <= i < points.len() && 0 <= j < 3 ==> flat@[3 * i + j] == points@[i][j],
        forall|k: int| 3 * points.len() <= k < capacity ==> flat@[k] == zero,
{
    let mut flat: Vec<T> = Vec::new();
    let mut i: usize = 0;
    while i < points.len()
        invariant
            i <= points.len(),
            3 * points.len() <= capacity,
            flat.len() == 3 * i,
            forall|a: int, b: int|
                #![trigger points@[a][b]]
                0 <= a < i && 0 <= b < 3 ==> flat@[3 * a + b] == points@[a][b],
        decreases points.len() - i,
    {
        let point = points[i];
        flat.push(point[0]);
        flat.push(point[1]);
        flat.push(point[2]);
        i = i + 1;
        assert forall|a: int, b: int|
            #![trigger points@[a][b]]
            0 <= a < i && 0 <= b < 3 implies flat@[3 * a + b] == points@[a][b] by {
            if a == i - 1 {
                assert(flat@[3 * a + b] == point[b]);
            }
        }
    }
    while flat.len() < capacity
        invariant
            flat.len() <= capacity,
            3 * points.len() <= flat.len(),
            forall|a: int, b: int|
                #![trigger points@[a][b]]
                0 <= a < points.len() && 0 <= b < 3 ==> flat@[3 * a + b] == points@[a][b],
            forall|k: int| 3 * points.len() <= k < flat.len() ==> flat@[k] == zero,
        decreases capacity - flat.len(),
    {
        flat.push(zero);
    }
    flat
}

/// Reads `points_num` points from a buffer that holds their coordinates one
/// after another.
pub fn unflatten_points<T: Copy>(flat: &[T], points_num: usize) -> (points: Vec<[T; 3]>)
    requires
        3 * points_num <= flat.len(),
    ensures
        points.len() == points_num,
        forall|i: int, j: int|
            #![trigger points@[i][j]]
            0 <= i < points_num && 0 <= j < 3 ==> points@[i][j] == flat@[3 * i + j],
{
    let mut points: Vec<[T; 3]> = Vec::new();
    let mut i: usize = 0;
    while i < points_num
        invariant
            i <= points_num,
            3 * points_num <= flat.len(),
            points.len() == i,
            forall|a: int, b: int|
                #![trigger points@[a][b]]
                0 <= a < i && 0 <= b < 3 ==> points@[a][b] == flat@[3 * a + b],
        decreases points_num - i,
    {
        let point: [T; 3] = [flat[3 * i], flat[3 * i + 1], flat[3 * i + 2]];
        points.push(point);
        i = i + 1;
    }
    points
}

/// Fills a six-value pose from the values read, leaving `zero` where none was read.
pub fn fill_pose<T: Copy>(values: &[T], zero: T) -> (pose: [T; 6])
    requires
        values.len() <= 6,
    ensures
        forall|k: int| 0 <= k < values.len() ==> pose@[k] == values@[k],
        forall|k: int| values.len() <= k < 6 ==> pose@[k] == zero,
{
    let mut pose: [T; 6] = [zero, zero, zero, zero, zero, zero];
    let mut k: usize = 0;
    while k < values.len()
        invariant
            values.len() <= 6,
            k <= values.len(),
            forall|m: int| 0 <= m < k ==> pose@[m] == values@[m],
            forall|m: int| k <= m < 6 ==> pose@[m] == zero,
        decreases values.len() - k,
    {
        pose[k] = values[k];
        k = k + 1;
    }
    pose
}

/// Writes pairs one after another at the front of `out`, leaving the rest of
/// `out` as it was.
pub fn write_pairs<T: Copy>(pairs: &[[T; 2]], out: &mut Vec<T>)
    requires
        2 * pairs.len() <= old(out).len(),
    ensures
        final(out).len() == old(out).len(),
        forall|i: int, j: int|
            #![trigger pairs@[i][j]]
            0 <= i < pairs.len() && 0 <= j < 2 ==> final(out)@[2 * i + j] == pairs@[i][j],
        forall|k: int| 2 * pairs.len() <= k < old(out).len() ==> final(out)@[k] == old(out)@[k],
{
    let mut i: usize = 0;
    while i < pairs.len()
        invariant
            i <= pairs.len(),
            2 * pairs.len() <= old(out).len(),
            out.len() == old(out).len(),
            forall|a: int, b: int|
                #![trigger pairs@[a][b]]
                0 <= a < i && 0 <= b < 2 ==> out@[2 * a + b] == pairs@[a][b],
            forall|k: int| 2 * i <= k < old(out).len() ==> out@[k] == old(out)@[k],
        decreases pairs.len() - i,
    {
        let pair = pairs[i];
        out.set(2 * i, pair[0]);
        out.set(2 * i + 1, pair[1]);
        i = i + 1;
        assert forall|a: int, b: int|
            #![trigger pairs@[a][b]]
            0 <= a < i && 0 <= b < 2 implies out@[2 * a + b] == pairs@[a][b] by {
            if a == i - 1 {
                assert(out@[2 * a + b] == pair[b]);
            }
        }
    }
}

/// Cuts a buffer into rows of `width` values; values left over after the last
/// full row are not part of any row.
pub fn group_rows<T: Copy>(values: &[T], width: usize) -> (rows: Vec<Vec<T>>)
    requires
        width > 0,
    ensures
        rows.len() == values.len() / width,
        forall|r: int|
            0 <= r < rows.len() ==> #[trigger] rows@[r]@ == values@.subrange(
                r * width,
                r * width + width,
            ),
{
    let count: usize = values.len() / width;
    let mut rows: Vec<Vec<T>> = Vec::new();
    let mut r: usize = 0;
    let mut start: usize = 0;
    proof {
        assert(count * width <= values.len()) by (nonlinear_arith)
            requires
                count == values.len() / width,
                width > 0,
        ;
    }
    while r < count
        invariant
            width > 0,
            count == values.len() / width,
            count * width <= values.len(),
            r <= count,
            start == r * width,
            rows.len() == r,
            forall|q: int|
                0 <= q < r ==> #[trigger] rows@[q]@ == values@.subrange(
                    q * width,
                    q * width + width,
                ),
        decreases count - r,
    {
        proof {
            assert(r * width + width <= count * width) by (nonlinear_arith)
                requires
                    r < count,
                    width > 0,
            ;
            assert((r + 1) * width == r * width + width) by (nonlinear_arith);
        }
        let mut row: Vec<T> = Vec::new();
        let mut c: usize = 0;
        while c < width
            invariant
                start + width <= values.len(),
                c <= width,
                row@ == values@.subrange(start as int, start + c),
            decreases width - c,
        {
            row.push(values[start + c]);
            c = c + 1;
            assert(row@ =~= values@.subrange(start as int, start + c));
        }
        rows.push(row);
        r = r + 1;
        start = start + width;
    }
    rows
}

} // verus!
