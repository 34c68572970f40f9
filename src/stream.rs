use vstd::prelude::*;

use crate::text::{chars_of, push_char};

verus! {

/// The views of a list of strings.
pub open spec fn texts(v: Seq<String>) -> Seq<Seq<char>> {
    v.map_values(|s: String| s@)
}

/// A stream of frames: each frame followed by one more line break, so that a
/// frame ending in a line break is followed by a blank line.
pub open spec fn stream_of(fs: Seq<Seq<char>>) -> Seq<char>
    decreases fs.len(),
{
    if fs.len() == 0 {
        Seq::empty()
    } else {
        stream_of(fs.drop_last()) + fs.last() + seq!['\n']
    }
}

/// What a carriage return becomes when a stream is read.
pub open spec fn normalized_char(c: char) -> Seq<char> {
    if c == '\r' {
        seq![' ', ' ', ' ']
    } else {
        seq![c]
    }
}

/// A stream with every carriage return replaced by three spaces.
pub open spec fn normalized(s: Seq<char>) -> Seq<char>
    decreases s.len(),
{
    if s.len() == 0 {
        Seq::empty()
    } else {
        normalized(s.drop_last()) + normalized_char(s.last())
    }
}

/// The number of carriage returns in `s`.
pub open spec fn cr_count(s: Seq<char>) -> int
    decreases s.len(),
{
    if s.len() == 0 {
        0
    } else {
        cr_count(s.drop_last()) + if s.last() == '\r' {
            1int
        } else {
            0int
        }
    }
}

/// Whether a frame delimiter (two line breaks) starts at `i`.
pub open spec fn delim_at(s: Seq<char>, i: int) -> bool {
    0 <= i && i + 1 < s.len() && s[i] == '\n' && s[i + 1] == '\n'
}

/// The pieces of `s` between delimiters, scanning left to right: the current
/// piece began at `start`, and `i` is the next position to look at.
pub open spec fn split_from(s: Seq<char>, start: int, i: int) -> Seq<Seq<char>>
    decreases s.len() - i,
{
    if i + 1 >= s.len() || i < 0 {
        seq![s.subrange(start, s.len() as int)]
    } else if delim_at(s, i) {
        seq![s.subrange(start, i)] + split_from(s, i + 2, i + 2)
    } else {
        split_from(s, start, i + 1)
    }
}

/// The frame blocks of a stream: the normalized text split on delimiters,
/// where an empty last piece (the stream's own ending) is no frame.
pub open spec fn frame_blocks(data: Seq<char>) -> Seq<Seq<char>> {
    let p = split_from(normalized(data), 0, 0);
    if p.last().len() == 0 {
        p.drop_last()
    } else {
        p
    }
}

/// Whether a frame can be stored and read back: it ends with a line break,
/// holds no two line breaks in a row and no carriage return.
pub open spec fn storable(f: Seq<char>) -> bool {
    &&& f.len() >= 1
    &&& f.last() == '\n'
    &&& forall|j: int| 0 <= j < f.len() ==> #[trigger] f[j] != '\r'
    &&& forall|j: int| 0 <= j < f.len() - 1 ==> !delim_at(f, j)
}

proof fn lemma_normalized_facts(s: Seq<char>)
    ensures
        normalized(s).len() == s.len() + 2 * cr_count(s),
        forall|j: int| 0 <= j < normalized(s).len() ==> #[trigger] normalized(s)[j] != '\r',
        (forall|j: int| 0 <= j < s.len() ==> #[trigger] s[j] != '\r') ==> normalized(s) == s,
    decreases s.len(),
{
    if s.len() > 0 {
        let t = s.drop_last();
        lemma_normalized_facts(t);
        let n = normalized(s);
        assert(n == normalized(t) + normalized_char(s.last()));
        assert forall|j: int| 0 <= j < n.len() implies #[trigger] n[j] != '\r' by {
            if j >= normalized(t).len() {
                assert(n[j] == normalized_char(s.last())[j - normalized(t).len()]);
            } else {
                assert(n[j] == normalized(t)[j]);
            }
        }
        if forall|j: int| 0 <= j < s.len() ==> #[trigger] s[j] != '\r' {
            assert forall|j: int| 0 <= j < t.len() implies #[trigger] t[j] != '\r' by {
                assert(t[j] == s[j]);
            }
            assert(s.last() == s[s.len() - 1]);
            assert(n =~= s);
        }
    }
}

proof fn lemma_pieces_from(s: Seq<char>, start: int, i: int)
    requires
        0 <= start <= i <= s.len(),
        forall|j: int| 0 <= j < s.len() ==> #[trigger] s[j] != '\r',
    ensures
        forall|p: int, j: int|
            0 <= p < split_from(s, start, i).len() && 0 <= j < split_from(s, start, i)[p].len()
                ==> #[trigger] split_from(s, start, i)[p][j] != '\r',
    decreases s.len() - i,
{
    let r = split_from(s, start, i);
    if i + 1 >= s.len() {
        assert forall|p: int, j: int| 0 <= p < r.len() && 0 <= j < r[p].len() implies #[trigger] r[p][j]
            != '\r' by {
            assert(r[p][j] == s[start + j]);
        }
    } else if delim_at(s, i) {
        lemma_pieces_from(s, i + 2, i + 2);
        let rest = split_from(s, i + 2, i + 2);
        assert(r == seq![s.subrange(start, i)] + rest);
        assert forall|p: int, j: int| 0 <= p < r.len() && 0 <= j < r[p].len() implies #[trigger] r[p][j]
            != '\r' by {
            if p == 0 {
                assert(r[p][j] == s[start + j]);
            } else {
                assert(r[p] == rest[p - 1]);
            }
        }
    } else {
        lemma_pieces_from(s, start, i + 1);
        assert(r == split_from(s, start, i + 1));
    }
}

proof fn lemma_pieces_nonempty(s: Seq<char>, start: int, i: int)
    ensures
        split_from(s, start, i).len() >= 1,
    decreases s.len() - i,
{
    if !(i + 1 >= s.len() || i < 0) {
        if delim_at(s, i) {
            lemma_pieces_nonempty(s, i + 2, i + 2);
        } else {
            lemma_pieces_nonempty(s, start, i + 1);
        }
    }
}

proof fn lemma_normalized_concat(a: Seq<char>, b: Seq<char>)
    ensures
        normalized(a + b) == normalized(a) + normalized(b),
    decreases b.len(),
{
    if b.len() == 0 {
        assert(a + b =~= a);
    } else {
        lemma_normalized_concat(a, b.drop_last());
        assert((a + b).drop_last() =~= a + b.drop_last());
        assert(normalized(b) == normalized(b.drop_last()) + normalized_char(b.last()));
    }
}

/// Normalizing works piece by piece: a line `l` anywhere in a stream becomes
/// its own normalized text in place, two characters longer for each
/// carriage return in it, so every line keeps its length parity.
pub proof fn lemma_lines_normalized_in_place(a: Seq<char>, l: Seq<char>, b: Seq<char>)
    ensures
        normalized(a + l + b) == normalized(a) + normalized(l) + normalized(b),
        normalized(l).len() == l.len() + 2 * cr_count(l),
{
    lemma_normalized_concat(a, l);
    lemma_normalized_concat(a + l, b);
    lemma_normalized_facts(l);
}

/// Reading a stream leaves no carriage return in any frame: each one became
/// exactly three spaces, so the normalized text is two characters longer for
/// each carriage return of the input.
pub proof fn lemma_carriage_returns_replaced(data: Seq<char>)
    ensures
        normalized(data).len() == data.len() + 2 * cr_count(data),
        forall|j: int| 0 <= j < normalized(data).len() ==> #[trigger] normalized(data)[j] != '\r',
        forall|p: int, j: int|
            0 <= p < frame_blocks(data).len() && 0 <= j < frame_blocks(data)[p].len()
                ==> #[trigger] frame_blocks(data)[p][j] != '\r',
{
    lemma_normalized_facts(data);
    let s = normalized(data);
    lemma_pieces_from(s, 0, 0);
    let all = split_from(s, 0, 0);
    lemma_pieces_nonempty(s, 0, 0);
    let fb = frame_blocks(data);
    assert forall|p: int, j: int| 0 <= p < fb.len() && 0 <= j < fb[p].len() implies #[trigger] fb[p][j]
        != '\r' by {
        assert(fb[p] == all[p]);
    }
}

proof fn lemma_scan(s: Seq<char>, start: int, i: int, d: int)
    requires
        0 <= start <= i <= d,
        delim_at(s, d),
        forall|j: int| i <= j < d ==> !#[trigger] delim_at(s, j),
    ensures
        split_from(s, start, i) == seq![s.subrange(start, d)] + split_from(s, d + 2, d + 2),
    decreases d - i,
{
    if i < d {
        assert(!delim_at(s, i));
        lemma_scan(s, start, i + 1, d);
    }
}

proof fn lemma_shift(p: Seq<char>, r: Seq<char>, a: int, i: int)
    requires
        0 <= a <= i <= r.len(),
    ensures
        split_from(p + r, p.len() + a, p.len() + i) == split_from(r, a, i),
    decreases r.len() - i,
{
    let s = p + r;
    let k = p.len() + i;
    if i + 1 >= r.len() {
        assert(s.subrange(p.len() + a, s.len() as int) =~= r.subrange(a, r.len() as int));
    } else {
        assert(s[k] == r[i] && s[k + 1] == r[i + 1]);
        if delim_at(r, i) {
            assert(s.subrange(p.len() + a, k) =~= r.subrange(a, i));
            lemma_shift(p, r, i + 2, i + 2);
        } else {
            lemma_shift(p, r, a, i + 1);
        }
    }
}

proof fn lemma_stream_front(fs: Seq<Seq<char>>)
    requires
        fs.len() > 0,
    ensures
        stream_of(fs) == fs[0] + seq!['\n'] + stream_of(fs.subrange(1, fs.len() as int)),
    decreases fs.len(),
{
    if fs.len() == 1 {
        assert(fs.subrange(1, 1) =~= Seq::<Seq<char>>::empty());
        assert(fs.drop_last() =~= Seq::<Seq<char>>::empty());
        assert(stream_of(fs.drop_last()) == Seq::<char>::empty());
        assert(fs.last() == fs[0]);
        assert(stream_of(fs.subrange(1, 1)) == Seq::<char>::empty());
        assert(stream_of(fs) =~= fs[0] + seq!['\n'] + stream_of(fs.subrange(1, 1)));
    } else {
        let t = fs.drop_last();
        lemma_stream_front(t);
        assert(t.subrange(1, t.len() as int) =~= fs.subrange(1, fs.len() as int).drop_last());
        assert(stream_of(fs) =~= fs[0] + seq!['\n'] + stream_of(fs.subrange(1, fs.len() as int)));
    }
}

proof fn lemma_split_stream(fs: Seq<Seq<char>>)
    requires
        forall|k: int| 0 <= k < fs.len() ==> storable(#[trigger] fs[k]),
    ensures
        split_from(stream_of(fs), 0, 0) == fs.map_values(|f: Seq<char>| f.drop_last()).push(
            Seq::<char>::empty(),
        ),
    decreases fs.len(),
{
    let s = stream_of(fs);
    if fs.len() == 0 {
        assert(s.len() == 0);
        assert(s.subrange(0, 0) =~= Seq::<char>::empty());
        assert(split_from(s, 0, 0) =~= seq![Seq::<char>::empty()]);
        assert(fs.map_values(|f: Seq<char>| f.drop_last()).push(Seq::<char>::empty()) =~= seq![
            Seq::<char>::empty(),
        ]);
    } else {
        let f = fs[0];
        let rest = fs.subrange(1, fs.len() as int);
        assert forall|k: int| 0 <= k < rest.len() implies storable(#[trigger] rest[k]) by {
            assert(rest[k] == fs[k + 1]);
        }
        lemma_split_stream(rest);
        lemma_stream_front(fs);
        let head = f + seq!['\n'];
        let r = stream_of(rest);
        assert(s == head + r);
        assert(storable(fs[0]));
        let d = f.len() - 1;
        assert(delim_at(s, d)) by {
            assert(s[d] == f[d]);
            assert(s[d + 1] == '\n');
        }
        assert forall|j: int| 0 <= j < d implies !#[trigger] delim_at(s, j) by {
            assert(s[j] == f[j] && s[j + 1] == f[j + 1]);
            assert(!delim_at(f, j));
        }
        lemma_scan(s, 0, 0, d);
        lemma_shift(head, r, 0, 0);
        assert(s.subrange(0, d) =~= f.drop_last());
        assert(split_from(s, 0, 0) =~= fs.map_values(|f: Seq<char>| f.drop_last()).push(
            Seq::<char>::empty(),
        ));
    }
}

proof fn lemma_stream_plain(fs: Seq<Seq<char>>)
    requires
        forall|k: int| 0 <= k < fs.len() ==> storable(#[trigger] fs[k]),
    ensures
        forall|j: int| 0 <= j < stream_of(fs).len() ==> #[trigger] stream_of(fs)[j] != '\r',
    decreases fs.len(),
{
    if fs.len() > 0 {
        let t = fs.drop_last();
        assert forall|k: int| 0 <= k < t.len() implies storable(#[trigger] t[k]) by {
            assert(t[k] == fs[k]);
        }
        lemma_stream_plain(t);
        let s = stream_of(fs);
        let f = fs.last();
        assert(storable(fs[fs.len() - 1]));
        assert forall|j: int| 0 <= j < s.len() implies #[trigger] s[j] != '\r' by {
            if j < stream_of(t).len() {
                assert(s[j] == stream_of(t)[j]);
            } else if j < stream_of(t).len() + f.len() {
                assert(s[j] == f[j - stream_of(t).len()]);
            }
        }
    }
}

/// Storing frames and reading the stream back gives one block per frame, in
/// the same order: each frame without its final line break.
pub proof fn lemma_round_trip(fs: Seq<Seq<char>>)
    requires
        forall|k: int| 0 <= k < fs.len() ==> storable(#[trigger] fs[k]),
    ensures
        frame_blocks(stream_of(fs)) == fs.map_values(|f: Seq<char>| f.drop_last()),
        frame_blocks(stream_of(fs)).len() == fs.len(),
{
    lemma_stream_plain(fs);
    lemma_normalized_facts(stream_of(fs));
    lemma_split_stream(fs);
    let all = fs.map_values(|f: Seq<char>| f.drop_last()).push(Seq::<char>::empty());
    assert(all.drop_last() =~= fs.map_values(|f: Seq<char>| f.drop_last()));
}

/// Concatenates frames into one stream, each followed by a blank line.
pub fn serialize_frames(frames: &Vec<String>) -> (r: String)
    ensures
        r@ == stream_of(texts(frames@)),
{
    let ghost fs = texts(frames@);
    let mut out = String::new();
    let mut i: usize = 0;
    while i < frames.len()
        invariant
            i <= frames@.len(),
            fs == texts(frames@),
            out@ == stream_of(fs.subrange(0, i as int)),
        decreases frames@.len() - i,
    {
        out.append(frames[i].as_str());
        push_char(&mut out, '\n');
        proof {
            let next = fs.subrange(0, i + 1);
            assert(next.drop_last() =~= fs.subrange(0, i as int));
        }
        i = i + 1;
    }
    assert(fs.subrange(0, frames@.len() as int) =~= fs);
    out
}

fn normalize_chars(s: &Vec<char>) -> (r: Vec<char>)
    ensures
        r@ == normalized(s@),
{
    let mut out: Vec<char> = Vec::new();
    let mut i: usize = 0;
    while i < s.len()
        invariant
            i <= s@.len(),
            out@ == normalized(s@.subrange(0, i as int)),
        decreases s@.len() - i,
    {
        let c = s[i];
        if c == '\r' {
            out.push(' ');
            out.push(' ');
            out.push(' ');
        } else {
            out.push(c);
        }
        proof {
            let next = s@.subrange(0, i + 1);
            assert(next.drop_last() =~= s@.subrange(0, i as int));
            assert(out@ =~= normalized(next));
        }
        i = i + 1;
    }
    assert(s@.subrange(0, s@.len() as int) =~= s@);
    out
}

/// Splits a stored stream into its frame blocks, in order. Carriage returns
/// are first replaced by three spaces; the stream is then cut at every pair
/// of line breaks. An empty stream has no frames.
pub fn parse_stream(data: &str) -> (r: Vec<String>)
    ensures
        texts(r@) == frame_blocks(data@),
{
    let raw = chars_of(data);
    let s = normalize_chars(&raw);
    let ghost sv = s@;
    let len = s.len();
    let mut pieces: Vec<String> = Vec::new();
    let mut cur = String::new();
    let mut start: usize = 0;
    let mut i: usize = 0;
    while i < len && i + 1 < len
        invariant
            sv == s@,
            len == sv.len(),
            start <= i <= len,
            cur@ == sv.subrange(start as int, i as int),
            texts(pieces@) + split_from(sv, start as int, i as int) == split_from(sv, 0, 0),
        decreases len - i,
    {
        if s[i] == '\n' && s[i + 1] == '\n' {
            let ghost before = pieces@;
            assert(delim_at(sv, i as int));
            pieces.push(cur);
            cur = String::new();
            proof {
                assert(texts(pieces@) =~= texts(before).push(sv.subrange(start as int, i as int)));
                assert(split_from(sv, start as int, i as int) == seq![sv.subrange(start as int, i as int)]
                    + split_from(sv, i + 2, i + 2));
                assert(cur@ =~= sv.subrange(i + 2, i + 2));
            }
            i = i + 2;
            start = i;
        } else {
            push_char(&mut cur, s[i]);
            assert(cur@ =~= sv.subrange(start as int, i + 1));
            i = i + 1;
        }
    }
    if i < len {
        push_char(&mut cur, s[i]);
    }
    assert(cur@ =~= sv.subrange(start as int, len as int));
    let ghost before = pieces@;
    let ghost all = texts(before).push(sv.subrange(start as int, len as int));
    assert(all =~= split_from(sv, 0, 0));
    if start < len {
        pieces.push(cur);
        assert(texts(pieces@) =~= all);
    } else {
        assert(texts(pieces@) =~= all.drop_last());
    }
    pieces
}

} // verus!
