use vstd::prelude::*;

verus! {

/// The views of a sequence of byte vectors.
pub open spec fn views(parts: Seq<Vec<u8>>) -> Seq<Seq<u8>> {
    parts.map_values(|part: Vec<u8>| part@)
}

/// Whether `sep` occurs in `text` starting at position `i`.
pub open spec fn matches_at(text: Seq<u8>, sep: Seq<u8>, i: int) -> bool {
    &&& 0 <= i
    &&& i + sep.len() <= text.len()
    &&& text.subrange(i, i + sep.len()) == sep
}

/// The pieces of `text` from `start` on, where the current piece began at
/// `piece_start`, cutting at each occurrence of `sep` found scanning left to
/// right (occurrences do not overlap).
pub open spec fn split_scan(text: Seq<u8>, sep: Seq<u8>, i: int, piece_start: int) -> Seq<Seq<u8>>
    decreases text.len() - i,
{
    if i >= text.len() {
        seq![text.subrange(piece_start, text.len() as int)]
    } else if sep.len() > 0 && matches_at(text, sep, i) {
        seq![text.subrange(piece_start, i)] + split_scan(
            text,
            sep,
            i + sep.len(),
            i + sep.len(),
        )
    } else {
        split_scan(text, sep, i + 1, piece_start)
    }
}

/// The pieces of `text` between occurrences of a non-empty separator, as
/// `str::split` gives them: there is always at least one piece, and pieces may
/// be empty.
pub open spec fn split_spec(text: Seq<u8>, sep: Seq<u8>) -> Seq<Seq<u8>> {
    split_scan(text, sep, 0, 0)
}

/// Whether `sep` occurs in `text` at position `i`, compared byte by byte.
fn separator_at(text: &[u8], sep: &[u8], i: usize) -> (found: bool)
    requires
        i <= text.len(),
    ensures
        found == matches_at(text@, sep@, i as int),
{
    if sep.len() > text.len() - i {
        return false;
    }
    let mut k: usize = 0;
    while k < sep.len()
        invariant
            i + sep.len() <= text.len(),
            k <= sep.len(),
            forall|m: int| 0 <= m < k ==> text@[i + m] == sep@[m],
        decreases sep.len() - k,
    {
        if text[i + k] != sep[k] {
            assert(text@.subrange(i as int, i + sep.len())[k as int] != sep@[k as int]);
            return false;
        }
        k = k + 1;
    }
    assert(text@.subrange(i as int, i + sep.len()) =~= sep@);
    true
}

/// Copies `text[start..end]` into a new vector.
pub fn copy_range(text: &[u8], start: usize, end: usize) -> (piece: Vec<u8>)
    requires
        start <= end <= text.len(),
    ensures
        piece@ == text@.subrange(start as int, end as int),
{
    let mut piece: Vec<u8> = Vec::new();
    let mut k: usize = start;
    while k < end
        invariant
            start <= k <= end <= text.len(),
            piece@ == text@.subrange(start as int, k as int),
        decreases end - k,
    {
        piece.push(text[k]);
        k = k + 1;
        assert(piece@ =~= text@.subrange(start as int, k as int));
    }
    piece
}

/// Splits `text` at every occurrence of the non-empty separator `sep`.
pub fn split_on(text: &[u8], sep: &[u8]) -> (parts: Vec<Vec<u8>>)
    requires
        sep.len() > 0,
    ensures
        views(parts@) == split_spec(text@, sep@),
{
    let mut parts: Vec<Vec<u8>> = Vec::new();
    let mut i: usize = 0;
    let mut piece_start: usize = 0;
    while i < text.len()
        invariant
            sep.len() > 0,
            piece_start <= i <= text.len(),
            views(parts@) + split_scan(text@, sep@, i as int, piece_start as int) == split_spec(
                text@,
                sep@,
            ),
        decreases text.len() - i,
    {
        let ghost before = views(parts@);
        let ghost old_i = i as int;
        let ghost old_start = piece_start as int;
        if separator_at(text, sep, i) {
            let piece = copy_range(text, piece_start, i);
            parts.push(piece);
            i = i + sep.len();
            piece_start = i;
            assert(split_scan(text@, sep@, old_i, old_start) == seq![piece@] + split_scan(
                text@,
                sep@,
                i as int,
                i as int,
            ));
            assert(views(parts@) =~= before.push(piece@));
            assert(views(parts@) + split_scan(text@, sep@, i as int, piece_start as int) =~= before
                + split_scan(text@, sep@, old_i, old_start));
        } else {
            i = i + 1;
        }
    }
    let ghost before = views(parts@);
    let piece = copy_range(text, piece_start, text.len());
    parts.push(piece);
    assert(views(parts@) =~= before.push(piece@));
    assert(views(parts@) =~= before + split_scan(text@, sep@, i as int, piece_start as int));
    parts
}


/// Every split has at least one piece.
pub proof fn lemma_split_scan_nonempty(text: Seq<u8>, sep: Seq<u8>, i: int, piece_start: int)
    ensures
        split_scan(text, sep, i, piece_start).len() >= 1,
    decreases text.len() - i,
{
    if i >= text.len() {
    } else if sep.len() > 0 && matches_at(text, sep, i) {
        lemma_split_scan_nonempty(text, sep, i + sep.len(), i + sep.len());
    } else {
        lemma_split_scan_nonempty(text, sep, i + 1, piece_start);
    }
}

/// The concatenation of a sequence of byte strings.
pub open spec fn concat(parts: Seq<Seq<u8>>) -> Seq<u8>
    decreases parts.len(),
{
    if parts.len() == 0 {
        Seq::empty()
    } else {
        concat(parts.drop_last()) + parts.last()
    }
}

/// The field separator of a scan message.
pub open spec fn bar() -> Seq<u8> {
    seq![124u8]
}

/// The three fields of a received message: the piece before the first `|` is
/// the point text, the piece after it the pose text, and all later pieces,
/// joined without their separators, the hash text. Missing fields are empty.
pub open spec fn message_fields(received: Seq<u8>) -> (Seq<u8>, Seq<u8>, Seq<u8>) {
    let parts = split_spec(received, bar());
    (
        parts[0],
        if parts.len() > 1 {
            parts[1]
        } else {
            Seq::empty()
        },
        if parts.len() > 2 {
            concat(parts.subrange(2, parts.len() as int))
        } else {
            Seq::empty()
        },
    )
}

/// Appends all of `src` to `dst`.
fn append_bytes(dst: &mut Vec<u8>, src: &[u8])
    ensures
        final(dst)@ == old(dst)@ + src@,
{
    let mut k: usize = 0;
    while k < src.len()
        invariant
            k <= src.len(),
            dst@ == old(dst)@ + src@.subrange(0, k as int),
        decreases src.len() - k,
    {
        dst.push(src[k]);
        k = k + 1;
        assert(dst@ =~= old(dst)@ + src@.subrange(0, k as int));
    }
    assert(src@.subrange(0, src@.len() as int) =~= src@);
}

/// Splits a received message at `|` into its point text, pose text and hash text.
pub fn split_message(received: &[u8]) -> (fields: (Vec<u8>, Vec<u8>, Vec<u8>))
    ensures
        (fields.0@, fields.1@, fields.2@) == message_fields(received@),
{
    let separator: [u8; 1] = [124u8];
    assert(separator@ =~= bar());
    let parts = split_on(received, separator.as_slice());
    let ghost pieces = split_spec(received@, bar());
    proof {
        lemma_split_scan_nonempty(received@, bar(), 0, 0);
        assert(views(parts@) == pieces);
        assert(parts@.len() == pieces.len());
    }
    let lidar = copy_range(parts[0].as_slice(), 0, parts[0].len());
    assert(lidar@ =~= pieces[0]);
    let mut pose: Vec<u8> = Vec::new();
    if parts.len() > 1 {
        pose = copy_range(parts[1].as_slice(), 0, parts[1].len());
        assert(pose@ =~= pieces[1]);
    }
    let mut hash: Vec<u8> = Vec::new();
    if parts.len() > 2 {
        let mut k: usize = 2;
        assert(pieces.subrange(2, 2) =~= Seq::<Seq<u8>>::empty());
        assert(concat(pieces.subrange(2, 2)) =~= Seq::<u8>::empty());
        while k < parts.len()
            invariant
                2 <= k <= parts.len(),
                views(parts@) == pieces,
                parts@.len() == pieces.len(),
                hash@ == concat(pieces.subrange(2, k as int)),
            decreases parts.len() - k,
        {
            let ghost prev = pieces.subrange(2, k as int);
            append_bytes(&mut hash, parts[k].as_slice());
            k = k + 1;
            assert(pieces.subrange(2, k as int).drop_last() =~= prev);
            assert(pieces.subrange(2, k as int).last() == pieces[k - 1]);
        }
    }
    (lidar, pose, hash)
}

/// `text` holds no `|` byte.
pub open spec fn bar_free(text: Seq<u8>) -> bool {
    forall|k: int| 0 <= k < text.len() ==> text[k] != 124u8
}

proof fn lemma_bar_match(text: Seq<u8>, k: int)
    requires
        0 <= k < text.len(),
    ensures
        matches_at(text, bar(), k) <==> text[k] == 124u8,
{
    if text[k] == 124u8 {
        assert(text.subrange(k, k + 1) =~= bar());
    } else {
        assert(text.subrange(k, k + 1)[0] != bar()[0]);
    }
}

proof fn lemma_scan_to_end(text: Seq<u8>, i: int, piece_start: int)
    requires
        0 <= piece_start <= i <= text.len(),
        forall|k: int| i <= k < text.len() ==> text[k] != 124u8,
    ensures
        split_scan(text, bar(), i, piece_start) == seq![
            text.subrange(piece_start, text.len() as int),
        ],
    decreases text.len() - i,
{
    if i < text.len() {
        lemma_bar_match(text, i);
        lemma_scan_to_end(text, i + 1, piece_start);
    }
}

proof fn lemma_scan_to_bar(text: Seq<u8>, i: int, piece_start: int, j: int)
    requires
        0 <= piece_start <= i <= j < text.len(),
        text[j] == 124u8,
        forall|k: int| i <= k < j ==> text[k] != 124u8,
    ensures
        split_scan(text, bar(), i, piece_start) == seq![text.subrange(piece_start, j)]
            + split_scan(text, bar(), j + 1, j + 1),
    decreases j - i,
{
    lemma_bar_match(text, i);
    if i < j {
        lemma_scan_to_bar(text, i + 1, piece_start, j);
    }
}

/// A message made of a `|`-free point text, `|`, a `|`-free pose text, `|`, and
/// a `|`-free hash text is read back field for field.
pub proof fn lemma_message_roundtrip(lidar: Seq<u8>, pose: Seq<u8>, hash: Seq<u8>)
    requires
        bar_free(lidar),
        bar_free(pose),
        bar_free(hash),
    ensures
        message_fields(lidar + bar() + pose + bar() + hash) == (lidar, pose, hash),
{
    let m = lidar + bar() + pose + bar() + hash;
    let a = lidar.len() as int;
    let b = a + 1 + pose.len();
    assert(m[a] == 124u8);
    assert(m[b] == 124u8);
    assert forall|k: int| 0 <= k < a implies m[k] != 124u8 by {
        assert(m[k] == lidar[k]);
    }
    assert forall|k: int| a + 1 <= k < b implies m[k] != 124u8 by {
        assert(m[k] == pose[k - a - 1]);
    }
    assert forall|k: int| b + 1 <= k < m.len() implies m[k] != 124u8 by {
        assert(m[k] == hash[k - b - 1]);
    }
    lemma_scan_to_bar(m, 0, 0, a);
    lemma_scan_to_bar(m, a + 1, a + 1, b);
    lemma_scan_to_end(m, b + 1, b + 1);
    let parts = split_spec(m, bar());
    assert(parts =~= seq![m.subrange(0, a), m.subrange(a + 1, b), m.subrange(b + 1, m.len() as int)]);
    assert(m.subrange(0, a) =~= lidar);
    assert(m.subrange(a + 1, b) =~= pose);
    assert(m.subrange(b + 1, m.len() as int) =~= hash);
    let tail = parts.subrange(2, 3);
    assert(tail.drop_last() =~= Seq::<Seq<u8>>::empty());
    assert(concat(tail.drop_last()) =~= Seq::<u8>::empty());
    assert(concat(tail) =~= hash);
}


/// The line feed byte.
pub open spec fn newline() -> Seq<u8> {
    seq![10u8]
}

/// A line without the carriage return that ended it, if any.
pub open spec fn strip_cr(line: Seq<u8>) -> Seq<u8> {
    if line.len() > 0 && line.last() == 13u8 {
        line.drop_last()
    } else {
        line
    }
}

/// The lines of a byte stream as `BufRead::lines` yields them: the stream is
/// cut at each line feed, a final empty piece (after a trailing line feed, or
/// of an empty stream) is not a line, and a carriage return just before a line
/// feed is dropped.
pub open spec fn lines_spec(raw: Seq<u8>) -> Seq<Seq<u8>> {
    let pieces = split_spec(raw, newline());
    let n = pieces.len();
    let count = if pieces[n - 1].len() == 0 {
        n - 1
    } else {
        n as int
    };
    Seq::new(
        count as nat,
        |i: int|
            if i < n - 1 {
                strip_cr(pieces[i])
            } else {
                pieces[i]
            },
    )
}

/// Each line followed by `marker`, all joined.
pub open spec fn joined_lines(raw: Seq<u8>, marker: Seq<u8>) -> Seq<u8> {
    concat(lines_spec(raw).map_values(|line: Seq<u8>| line + marker))
}

/// Reads a received stream line by line and joins the lines, each followed by
/// `marker` (the receiver passes an empty marker).
pub fn join_lines(raw: &[u8], marker: &[u8]) -> (joined: Vec<u8>)
    ensures
        joined@ == joined_lines(raw@, marker@),
{
    let separator: [u8; 1] = [10u8];
    assert(separator@ =~= newline());
    let pieces = split_on(raw, separator.as_slice());
    let ghost spec_pieces = split_spec(raw@, newline());
    proof {
        lemma_split_scan_nonempty(raw@, newline(), 0, 0);
        assert(views(pieces@) == spec_pieces);
        assert(pieces@.len() == spec_pieces.len());
    }
    let ghost lines = lines_spec(raw@);
    let ghost framed = lines.map_values(|line: Seq<u8>| line + marker@);
    let n: usize = pieces.len();
    let count: usize = if pieces[n - 1].len() == 0 {
        n - 1
    } else {
        n
    };
    assert(lines.len() == count);
    let mut joined: Vec<u8> = Vec::new();
    let mut idx: usize = 0;
    assert(framed.subrange(0, 0) =~= Seq::<Seq<u8>>::empty());
    assert(concat(framed.subrange(0, 0)) =~= Seq::<u8>::empty());
    while idx < count
        invariant
            n == pieces@.len(),
            n >= 1,
            count <= n,
            idx <= count,
            views(pieces@) == spec_pieces,
            lines.len() == count,
            framed.len() == count,
            lines == lines_spec(raw@),
            framed == lines.map_values(|line: Seq<u8>| line + marker@),
            spec_pieces == split_spec(raw@, newline()),
            joined@ == concat(framed.subrange(0, idx as int)),
        decreases count - idx,
    {
        let piece = &pieces[idx];
        assert(piece@ == spec_pieces[idx as int]);
        let mut end: usize = piece.len();
        if idx < n - 1 && end > 0 && piece[end - 1] == 13u8 {
            end = end - 1;
        }
        let line = copy_range(piece.as_slice(), 0, end);
        assert(line@ =~= lines[idx as int]);
        let ghost prev = framed.subrange(0, idx as int);
        append_bytes(&mut joined, line.as_slice());
        append_bytes(&mut joined, marker);
        idx = idx + 1;
        assert(framed.subrange(0, idx as int).drop_last() =~= prev);
        assert(framed.subrange(0, idx as int).last() == line@ + marker@);
        assert(joined@ =~= concat(prev) + (line@ + marker@));
    }
    assert(framed.subrange(0, count as int) =~= framed);
    joined
}


/// `text` holds no byte `b`.
pub open spec fn free_of(text: Seq<u8>, b: u8) -> bool {
    forall|k: int| 0 <= k < text.len() ==> text[k] != b
}

proof fn lemma_single_match(text: Seq<u8>, b: u8, k: int)
    requires
        0 <= k < text.len(),
    ensures
        matches_at(text, seq![b], k) <==> text[k] == b,
{
    if text[k] == b {
        assert(text.subrange(k, k + 1) =~= seq![b]);
    } else {
        assert(text.subrange(k, k + 1)[0] != seq![b][0]);
    }
}

/// No piece of a split at a one-byte separator holds that byte.
pub proof fn lemma_pieces_free_of_separator(text: Seq<u8>, b: u8, i: int, piece_start: int)
    requires
        0 <= piece_start <= i <= text.len(),
        free_of(text.subrange(piece_start, i), b),
    ensures
        forall|p: int|
            0 <= p < split_scan(text, seq![b], i, piece_start).len() ==> free_of(
                #[trigger] split_scan(text, seq![b], i, piece_start)[p],
                b,
            ),
    decreases text.len() - i,
{
    let sep = seq![b];
    if i >= text.len() {
        assert(split_scan(text, sep, i, piece_start) == seq![text.subrange(piece_start, i)]);
    } else {
        lemma_single_match(text, b, i);
        if matches_at(text, sep, i) {
            assert(text.subrange(i + 1, i + 1) =~= Seq::<u8>::empty());
            lemma_pieces_free_of_separator(text, b, i + 1, i + 1);
            let rest = split_scan(text, sep, i + 1, i + 1);
            assert(split_scan(text, sep, i, piece_start) == seq![text.subrange(piece_start, i)]
                + rest);
            assert forall|p: int|
                0 <= p < split_scan(text, sep, i, piece_start).len() implies free_of(
                #[trigger] split_scan(text, sep, i, piece_start)[p],
                b,
            ) by {
                if p > 0 {
                    assert(split_scan(text, sep, i, piece_start)[p] == rest[p - 1]);
                }
            }
        } else {
            let grown = text.subrange(piece_start, i + 1);
            assert forall|k: int| 0 <= k < grown.len() implies #[trigger] grown[k] != b by {
                if k < i - piece_start {
                    assert(grown[k] == text.subrange(piece_start, i)[k]);
                }
            }
            lemma_pieces_free_of_separator(text, b, i + 1, piece_start);
            assert(split_scan(text, sep, i, piece_start) == split_scan(text, sep, i + 1, piece_start));
        }
    }
}

proof fn lemma_concat_free_of(parts: Seq<Seq<u8>>, b: u8)
    requires
        forall|p: int| 0 <= p < parts.len() ==> free_of(#[trigger] parts[p], b),
    ensures
        free_of(concat(parts), b),
    decreases parts.len(),
{
    if parts.len() > 0 {
        let init = parts.drop_last();
        assert forall|p: int| 0 <= p < init.len() implies free_of(#[trigger] init[p], b) by {
            assert(init[p] == parts[p]);
        }
        lemma_concat_free_of(init, b);
        let left = concat(init);
        let right = parts.last();
        assert(free_of(right, b));
        assert forall|k: int| 0 <= k < (left + right).len() implies (left + right)[k] != b by {
            if k >= left.len() {
                assert((left + right)[k] == right[k - left.len()]);
            }
        }
    }
}

/// The text the receiver joins from a stream holds no line feed: lines are
/// cut at line feeds, and the marker added after each line holds none either.
pub proof fn lemma_joined_lines_have_no_line_feed(raw: Seq<u8>, marker: Seq<u8>)
    requires
        free_of(marker, 10u8),
    ensures
        free_of(joined_lines(raw, marker), 10u8),
{
    assert(raw.subrange(0, 0) =~= Seq::<u8>::empty());
    lemma_pieces_free_of_separator(raw, 10u8, 0, 0);
    assert(newline() =~= seq![10u8]);
    let pieces = split_spec(raw, newline());
    assert(pieces == split_scan(raw, seq![10u8], 0, 0));
    let lines = lines_spec(raw);
    let framed = lines.map_values(|line: Seq<u8>| line + marker);
    lemma_split_scan_nonempty(raw, newline(), 0, 0);
    assert(framed.len() <= pieces.len());
    assert forall|p: int| 0 <= p < framed.len() implies free_of(#[trigger] framed[p], 10u8) by {
        let piece = pieces[p];
        assert(free_of(split_scan(raw, seq![10u8], 0, 0)[p], 10u8));
        let line = lines[p];
        assert(free_of(line, 10u8)) by {
            if line != piece {
                assert(line =~= piece.drop_last());
                assert forall|k: int| 0 <= k < line.len() implies line[k] != 10u8 by {
                    assert(line[k] == piece[k]);
                }
            }
        }
        assert(framed[p] == line + marker);
        assert forall|k: int| 0 <= k < (line + marker).len() implies (line + marker)[k] != 10u8 by {
            if k >= line.len() {
                assert((line + marker)[k] == marker[k - line.len()]);
            }
        }
    }
    lemma_concat_free_of(framed, 10u8);
}

} // verus!
