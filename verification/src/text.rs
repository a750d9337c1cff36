//! Character-level helpers shared by the parsers: Unicode whitespace, field
//! splitting, trimming and unsigned decimal parsing.
//!
//! Text is handled as a vector of `char`s; a piece of it is named by a pair
//! `(start, end)` of positions into that vector.
use vstd::prelude::*;

verus! {

/// The Unicode `White_Space` property, the set that `char::is_whitespace`,
/// `str::split_whitespace` and `str::trim` use.
pub open spec fn is_space(c: char) -> bool {
    let u = c as u32;
    ||| 0x09 <= u <= 0x0d
    ||| u == 0x20
    ||| u == 0x85
    ||| u == 0xa0
    ||| u == 0x1680
    ||| 0x2000 <= u <= 0x200a
    ||| u == 0x2028
    ||| u == 0x2029
    ||| u == 0x202f
    ||| u == 0x205f
    ||| u == 0x3000
}

/// The whitespace-separated fields of `s`, in order: the maximal runs of
/// characters that are not whitespace (what `str::split_whitespace` yields).
/// Defined by how each further character extends the fields of what precedes it.
pub open spec fn fields(s: Seq<char>) -> Seq<Seq<char>>
    decreases s.len(),
{
    if s.len() == 0 {
        seq![]
    } else {
        let before = s.drop_last();
        let c = s.last();
        let f = fields(before);
        if is_space(c) {
            f
        } else if before.len() > 0 && !is_space(before.last()) && f.len() > 0 {
            f.update(f.len() - 1, f.last().push(c))
        } else {
            f.push(seq![c])
        }
    }
}

/// `s` with its leading whitespace removed.
pub open spec fn trim_start(s: Seq<char>) -> Seq<char>
    decreases s.len(),
{
    if s.len() > 0 && is_space(s[0]) {
        trim_start(s.drop_first())
    } else {
        s
    }
}

/// `s` with its trailing whitespace removed.
pub open spec fn trim_end(s: Seq<char>) -> Seq<char>
    decreases s.len(),
{
    if s.len() > 0 && is_space(s.last()) {
        trim_end(s.drop_last())
    } else {
        s
    }
}

/// `s` with whitespace removed at both ends (`str::trim`).
pub open spec fn trim(s: Seq<char>) -> Seq<char> {
    trim_end(trim_start(s))
}

pub open spec fn is_ascii_digit(c: char) -> bool {
    '0' <= c <= '9'
}

pub open spec fn digit_value(c: char) -> nat {
    ((c as u32) - ('0' as u32)) as nat
}

/// The number that the decimal digits `s` write, most significant first.
pub open spec fn decimal_value(s: Seq<char>) -> nat
    decreases s.len(),
{
    if s.len() == 0 {
        0
    } else {
        decimal_value(s.drop_last()) * 10 + digit_value(s.last())
    }
}

pub open spec fn all_digits(s: Seq<char>) -> bool {
    forall|i: int| 0 <= i < s.len() ==> is_ascii_digit(#[trigger] s[i])
}

/// The digits of an unsigned number: `s` without one leading `+`.
pub open spec fn unsigned_digits(s: Seq<char>) -> Seq<char> {
    if s.len() > 0 && s[0] == '+' {
        s.drop_first()
    } else {
        s
    }
}

/// What `s.parse::<u64>()` gives, as an `Option`: an optional `+` followed by
/// at least one ASCII digit, and a value that fits in a `u64`.
pub open spec fn parsed_u64(s: Seq<char>) -> Option<u64> {
    let d = unsigned_digits(s);
    if d.len() > 0 && all_digits(d) && decimal_value(d) <= u64::MAX {
        Some(decimal_value(d) as u64)
    } else {
        None
    }
}

/// `spans` names, in `text`, exactly the pieces `pieces`.
pub open spec fn spans_name(text: Seq<char>, spans: Seq<(usize, usize)>, pieces: Seq<Seq<char>>) -> bool {
    &&& spans.len() == pieces.len()
    &&& forall|k: int|
        0 <= k < spans.len() ==> {
            &&& (#[trigger] spans[k]).0 <= spans[k].1 <= text.len()
            &&& text.subrange(spans[k].0 as int, spans[k].1 as int) == pieces[k]
        }
}


/// `s` cut at every `'\n'`: one more piece than `s` has newlines, the
/// newlines themselves dropped.
/// Where the spans of fields lie in `text[start..end]`: in order, apart, and
/// each a maximal run, beginning at `start` or just after whitespace and
/// ending at `end` or just before whitespace.
pub open spec fn field_positions(text: Seq<char>, spans: Seq<(usize, usize)>, start: int, end: int) -> bool {
    &&& forall|k: int| 0 <= k < spans.len() ==> start <= (#[trigger] spans[k]).0 < spans[k].1 <= end
    &&& forall|k: int, l: int|
        0 <= k < l < spans.len() ==> (#[trigger] spans[k]).1 < (#[trigger] spans[l]).0
    &&& forall|k: int|
        0 <= k < spans.len() ==> (#[trigger] spans[k]).0 == start || is_space(
            text[spans[k].0 - 1],
        )
    &&& forall|k: int|
        0 <= k < spans.len() ==> (#[trigger] spans[k]).1 == end || is_space(
            text[spans[k].1 as int],
        )
}

/// `text[end..next]` is a line ending: `"\n"` or `"\r\n"`.
pub open spec fn is_line_break(text: Seq<char>, end: int, next: int) -> bool {
    ||| next == end + 1 && text[end] == '\n'
    ||| next == end + 2 && text[end] == '\r' && text[end + 1] == '\n'
}

/// Where the spans of the lines of `text` lie: the first begins at 0, each
/// next one right after the line ending of the one before, and the last ends
/// the text or is followed by a last line ending.
pub open spec fn line_positions(text: Seq<char>, spans: Seq<(usize, usize)>) -> bool {
    &&& spans.len() == 0 ==> text.len() == 0
    &&& spans.len() > 0 ==> spans[0].0 == 0
    &&& forall|k: int|
        0 <= k < spans.len() - 1 ==> is_line_break(
            text,
            (#[trigger] spans[k]).1 as int,
            spans[k + 1].0 as int,
        )
    &&& spans.len() > 0 ==> (spans.last().1 == text.len() || is_line_break(
        text,
        spans.last().1 as int,
        text.len() as int,
    ))
}

/// `s` cut at every `'\n'`: one more piece than `s` has newlines, the
/// newlines themselves dropped.
pub open spec fn newline_pieces(s: Seq<char>) -> Seq<Seq<char>>
    decreases s.len(),
{
    if s.len() == 0 {
        seq![seq![]]
    } else {
        let p = newline_pieces(s.drop_last());
        if s.last() == '\n' {
            p.push(seq![])
        } else if p.len() > 0 {
            p.update(p.len() - 1, p.last().push(s.last()))
        } else {
            seq![seq![s.last()]]
        }
    }
}

/// A line that a `"\r\n"` ended, without its `'\r'`.
pub open spec fn strip_cr(l: Seq<char>) -> Seq<char> {
    if l.len() > 0 && l.last() == '\r' {
        l.drop_last()
    } else {
        l
    }
}

/// The lines of `s`, as `str::lines` yields them: ended by `"\n"` or
/// `"\r\n"`, the ending dropped; a last line without an ending counts only
/// when it is not empty, and keeps a final `'\r'`.
pub open spec fn lines(s: Seq<char>) -> Seq<Seq<char>> {
    let p = newline_pieces(s);
    let ended = p.drop_last().map_values(|l: Seq<char>| strip_cr(l));
    if p.last().len() == 0 {
        ended
    } else {
        ended.push(p.last())
    }
}

pub proof fn lemma_newline_pieces_nonempty(s: Seq<char>)
    ensures
        newline_pieces(s).len() >= 1,
    decreases s.len(),
{
    if s.len() > 0 {
        lemma_newline_pieces_nonempty(s.drop_last());
    }
}

/// `s` is made of whole lines: it is empty or ends with `'\n'`.
pub open spec fn ends_lines(s: Seq<char>) -> bool {
    s.len() == 0 || s.last() == '\n'
}

/// After whole lines, the pieces of what follows go on from where those
/// of the whole lines stopped.
pub proof fn lemma_newline_pieces_append(x: Seq<char>, y: Seq<char>)
    requires
        ends_lines(x),
    ensures
        newline_pieces(x + y) == newline_pieces(x).drop_last() + newline_pieces(y),
        newline_pieces(x).last() == Seq::<char>::empty(),
    decreases y.len(),
{
    lemma_newline_pieces_nonempty(x);
    if x.len() > 0 {
        lemma_newline_pieces_nonempty(x.drop_last());
    }
    if y.len() == 0 {
        assert(x + y =~= x);
        assert(newline_pieces(x).drop_last() + newline_pieces(y) =~= newline_pieces(x));
    } else {
        let z = x + y;
        assert(z.drop_last() =~= x + y.drop_last());
        assert(z.last() == y.last());
        lemma_newline_pieces_append(x, y.drop_last());
        lemma_newline_pieces_nonempty(y.drop_last());
        lemma_newline_pieces_nonempty(z.drop_last());
        let q = newline_pieces(x).drop_last();
        let r = newline_pieces(y.drop_last());
        let c = y.last();
        if c == '\n' {
            assert((q + r).push(seq![]) =~= q + r.push(seq![]));
        } else {
            assert((q + r).update((q + r).len() - 1, (q + r).last().push(c)) =~= q + r.update(
                r.len() - 1,
                r.last().push(c),
            ));
        }
    }
}

/// The lines of whole lines followed by more text are the lines of each, in turn.
pub proof fn lemma_lines_append(x: Seq<char>, y: Seq<char>)
    requires
        ends_lines(x),
    ensures
        lines(x + y) == lines(x) + lines(y),
{
    lemma_newline_pieces_append(x, y);
    lemma_newline_pieces_nonempty(x);
    lemma_newline_pieces_nonempty(y);
    let px = newline_pieces(x);
    let py = newline_pieces(y);
    let p = newline_pieces(x + y);
    let f = |l: Seq<char>| strip_cr(l);
    assert(p.drop_last() =~= px.drop_last() + py.drop_last());
    assert(p.last() == py.last());
    assert((px.drop_last() + py.drop_last()).map_values(f) =~= px.drop_last().map_values(f)
        + py.drop_last().map_values(f));
    assert(lines(x) == px.drop_last().map_values(f));
    if py.last().len() == 0 {
        assert(lines(x + y) =~= lines(x) + lines(y));
    } else {
        assert(lines(x + y) =~= lines(x) + lines(y));
    }
}

/// A non-empty text whose last character is not whitespace has a field.
proof fn lemma_fields_nonempty(s: Seq<char>)
    requires
        s.len() > 0,
        !is_space(s.last()),
    ensures
        fields(s).len() > 0,
{
}

/// Whitespace separates fields: the fields of `a`, a whitespace character,
/// then `b`, are the fields of `a` followed by those of `b`.
pub proof fn lemma_fields_split(a: Seq<char>, c: char, b: Seq<char>)
    requires
        is_space(c),
    ensures
        fields(a + seq![c] + b) == fields(a) + fields(b),
    decreases b.len(),
{
    let whole = a + seq![c] + b;
    if b.len() == 0 {
        assert(whole =~= a.push(c));
        assert(whole.drop_last() =~= a);
        assert(fields(a) + fields(b) =~= fields(a));
    } else {
        let b1 = b.drop_last();
        let d = b.last();
        assert(whole.drop_last() =~= a + seq![c] + b1);
        assert(whole.last() == d);
        lemma_fields_split(a, c, b1);
        let fa = fields(a);
        let fb = fields(b1);
        let before = a + seq![c] + b1;
        if b1.len() > 0 {
            assert(before.last() == b1.last());
            if !is_space(b1.last()) {
                lemma_fields_nonempty(b1);
            }
        } else {
            assert(before.last() == c);
        }
        if is_space(d) {
        } else if b1.len() > 0 && !is_space(b1.last()) {
            assert((fa + fb).update((fa + fb).len() - 1, (fa + fb).last().push(d)) =~= fa
                + fb.update(fb.len() - 1, fb.last().push(d)));
        } else {
            assert((fa + fb).push(seq![d]) =~= fa + fb.push(seq![d]));
        }
    }
}

/// A non-empty run without whitespace is a single field.
pub proof fn lemma_fields_word(w: Seq<char>)
    requires
        w.len() > 0,
        forall|i: int| 0 <= i < w.len() ==> !is_space(#[trigger] w[i]),
    ensures
        fields(w) == seq![w],
    decreases w.len(),
{
    let w1 = w.drop_last();
    if w1.len() == 0 {
        assert(w =~= seq![w.last()]);
        assert(fields(w1) =~= Seq::<Seq<char>>::empty());
    } else {
        assert(forall|i: int| 0 <= i < w1.len() ==> w1[i] == w[i]);
        lemma_fields_word(w1);
        assert(w1.last() == w[w.len() - 2]);
        assert(w1.push(w.last()) =~= w);
        assert(fields(w1).update(0, fields(w1).last().push(w.last())) =~= seq![w]);
    }
}

/// Only whitespace: no field.
pub proof fn lemma_fields_blank(s: Seq<char>)
    requires
        forall|i: int| 0 <= i < s.len() ==> is_space(#[trigger] s[i]),
    ensures
        fields(s) == Seq::<Seq<char>>::empty(),
    decreases s.len(),
{
    if s.len() > 0 {
        assert(forall|i: int| 0 <= i < s.len() - 1 ==> s.drop_last()[i] == s[i]);
        lemma_fields_blank(s.drop_last());
    }
}

proof fn lemma_trim_start_shape(s: Seq<char>) -> (i: int)
    ensures
        0 <= i <= s.len(),
        trim_start(s) == s.skip(i),
        forall|k: int| 0 <= k < i ==> is_space(#[trigger] s[k]),
        i < s.len() ==> !is_space(s[i]),
    decreases s.len(),
{
    if s.len() > 0 && is_space(s[0]) {
        let j = lemma_trim_start_shape(s.drop_first());
        assert(s.drop_first().skip(j) =~= s.skip(j + 1));
        assert forall|k: int| 0 <= k < j + 1 implies is_space(#[trigger] s[k]) by {
            if k > 0 {
                assert(s[k] == s.drop_first()[k - 1]);
            }
        }
        j + 1
    } else {
        assert(s.skip(0) =~= s);
        0
    }
}

proof fn lemma_trim_end_shape(s: Seq<char>) -> (j: int)
    ensures
        0 <= j <= s.len(),
        trim_end(s) == s.take(j),
        forall|k: int| j <= k < s.len() ==> is_space(#[trigger] s[k]),
        j > 0 ==> !is_space(s[j - 1]),
    decreases s.len(),
{
    if s.len() > 0 && is_space(s.last()) {
        let j = lemma_trim_end_shape(s.drop_last());
        assert(s.drop_last().take(j) =~= s.take(j));
        assert forall|k: int| j <= k < s.len() implies is_space(#[trigger] s[k]) by {
            if k < s.len() - 1 {
                assert(s[k] == s.drop_last()[k]);
            }
        }
        j
    } else {
        assert(s.take(s.len() as int) =~= s);
        s.len() as int
    }
}

/// What trimming does: it cuts `s` to a middle part, dropping only
/// whitespace before and after it, and the middle part neither begins nor
/// ends with whitespace.
pub proof fn lemma_trim_shape(s: Seq<char>)
    ensures
        exists|i: int, j: int|
            0 <= i <= j <= s.len() && trim(s) == s.subrange(i, j) && (forall|k: int|
                0 <= k < i ==> is_space(#[trigger] s[k])) && (forall|k: int|
                j <= k < s.len() ==> is_space(#[trigger] s[k])) && (i < j ==> !is_space(s[i])
                && !is_space(s[j - 1])),
{
    let i = lemma_trim_start_shape(s);
    let t = s.skip(i);
    let j0 = lemma_trim_end_shape(t);
    let j = i + j0;
    assert(t.take(j0) =~= s.subrange(i, j));
    assert forall|k: int| j <= k < s.len() implies is_space(#[trigger] s[k]) by {
        assert(s[k] == t[k - i]);
    }
    if i < j {
        assert(s[i] == t[0]);
        assert(s[j - 1] == t[j0 - 1]);
        if j0 == 1 {
        }
    }
    assert(0 <= i <= j <= s.len() && trim(s) == s.subrange(i, j));
}

/// Text without a newline: its pieces are just itself.
proof fn lemma_newline_pieces_no_newline(l: Seq<char>)
    requires
        forall|i: int| 0 <= i < l.len() ==> l[i] != '\n',
    ensures
        newline_pieces(l) == seq![l],
    decreases l.len(),
{
    if l.len() > 0 {
        assert(forall|i: int| 0 <= i < l.len() - 1 ==> l.drop_last()[i] == l[i]);
        lemma_newline_pieces_no_newline(l.drop_last());
        assert(l.drop_last().push(l.last()) =~= l);
        assert(seq![l.drop_last()].update(0, l.drop_last().push(l.last())) =~= seq![l]);
    } else {
        assert(l =~= Seq::<char>::empty());
    }
}

/// One line: text without a newline, ended by `'\n'`, is one line (its
/// final `'\r'`, if any, dropped), and without the ending it is one line as
/// it stands, when not empty.
pub proof fn lemma_lines_single(l: Seq<char>)
    requires
        forall|i: int| 0 <= i < l.len() ==> l[i] != '\n',
    ensures
        lines(l.push('\n')) == seq![strip_cr(l)],
        l.len() > 0 ==> lines(l) == seq![l],
{
    lemma_newline_pieces_no_newline(l);
    let x = l.push('\n');
    assert(x.drop_last() =~= l);
    assert(newline_pieces(x) == seq![l, seq![]]) by {
        assert(seq![l].push(seq![]) =~= seq![l, seq![]]);
    }
    assert(newline_pieces(x).drop_last() =~= seq![l]);
    assert(seq![l].map_values(|m: Seq<char>| strip_cr(m)) =~= seq![strip_cr(l)]);
    assert(seq![l].drop_last() =~= Seq::<Seq<char>>::empty());
    if l.len() > 0 {
        assert(Seq::<Seq<char>>::empty().map_values(|m: Seq<char>| strip_cr(m)).push(l) =~= seq![
            l,
        ]);
    }
}

/// How unsigned parsing reads: a single digit is its value; each digit
/// appended to a number multiplies it by ten and adds the digit, while the
/// result fits; a leading `-` or an empty text is refused, and one leading
/// `+` changes nothing.
pub proof fn lemma_parsed_u64_reads_decimal(d: Seq<char>, c: char)
    ensures
        is_ascii_digit(c) ==> parsed_u64(seq![c]) == Some(((c as u32) - ('0' as u32)) as u64),
        d.len() > 0 && d[0] != '+' && parsed_u64(d) is Some && is_ascii_digit(c) && parsed_u64(
            d,
        )->0 * 10 + digit_value(c) <= u64::MAX ==> parsed_u64(d.push(c)) == Some(
            (parsed_u64(d)->0 * 10 + digit_value(c)) as u64,
        ),
        d.len() > 0 && d[0] != '+' && (parsed_u64(d) is None || !is_ascii_digit(c)) ==> parsed_u64(
            d.push(c),
        ) is None,
        parsed_u64(seq!['-'] + d) is None,
        parsed_u64(Seq::<char>::empty()) is None,
        d.len() > 0 && d[0] != '+' ==> parsed_u64(seq!['+'] + d) == parsed_u64(d),
{
    assert(seq![c].drop_last() =~= Seq::<char>::empty());
    assert((seq!['+'] + d).drop_first() =~= d);
    let e = d.push(c);
    assert(e.drop_last() =~= d);
    if is_ascii_digit(c) {
        let one = seq![c];
        assert(unsigned_digits(one) == one);
        assert(one.last() == c);
        assert(decimal_value(one) == digit_value(c));
        assert(all_digits(one));
    }
    if d.len() > 0 && d[0] != '+' {
        assert(e[0] == d[0]);
        assert(unsigned_digits(e) == e);
        assert(unsigned_digits(d) == d);
        if all_digits(e) {
            assert(forall|i: int| 0 <= i < d.len() ==> e[i] == d[i]);
            assert(all_digits(d));
            lemma_decimal_prefix_le(e, d.len() as int);
            assert(e.take(d.len() as int) =~= d);
        }
        if all_digits(d) && is_ascii_digit(c) {
            assert forall|i: int| 0 <= i < e.len() implies is_ascii_digit(#[trigger] e[i]) by {
                if i < d.len() {
                    assert(e[i] == d[i]);
                }
            }
        }
        if !is_ascii_digit(c) {
            assert(e[e.len() - 1] == c);
        }
    }
    let m = seq!['-'] + d;
    assert(m[0] == '-');
    assert(unsigned_digits(m) == m);
    assert(!is_ascii_digit(m[0]));
}

pub proof fn lemma_decimal_prefix_le(s: Seq<char>, k: int)
    requires
        0 <= k <= s.len(),
    ensures
        decimal_value(s.take(k)) <= decimal_value(s),
    decreases s.len() - k,
{
    if k < s.len() {
        lemma_decimal_prefix_le(s, k + 1);
        assert(s.take(k + 1).drop_last() =~= s.take(k));
    } else {
        assert(s.take(k) =~= s);
    }
}

/// Copies the characters of `s` into a vector, one element per `char`.
pub fn chars_of(s: &str) -> (res: Vec<char>)
    ensures
        res@ == s@,
{
    let mut res: Vec<char> = Vec::new();
    for c in it: s.chars()
        invariant
            res@ == it.seq().take(it.index() as int),
    {
        res.push(c);
    }
    proof {
        broadcast use vstd::string::axiom_spec_iter;
    }
    res
}

/// Whether `c` is Unicode whitespace.
pub fn is_space_char(c: char) -> (res: bool)
    ensures
        res == is_space(c),
{
    let u = c as u32;
    (0x09 <= u && u <= 0x0d) || u == 0x20 || u == 0x85 || u == 0xa0 || u == 0x1680 || (0x2000
        <= u && u <= 0x200a) || u == 0x2028 || u == 0x2029 || u == 0x202f || u == 0x205f || u
        == 0x3000
}

/// The whitespace-separated fields of `text[start..end]`, as spans into `text`.
pub fn field_spans(text: &Vec<char>, start: usize, end: usize) -> (res: Vec<(usize, usize)>)
    requires
        start <= end <= text@.len(),
    ensures
        spans_name(text@, res@, fields(text@.subrange(start as int, end as int))),
        field_positions(text@, res@, start as int, end as int),
{
    let mut res: Vec<(usize, usize)> = Vec::new();
    let mut i = start;
    while i < end
        invariant
            start <= i <= end <= text@.len(),
            spans_name(text@, res@, fields(text@.subrange(start as int, i as int))),
            field_positions(text@, res@, start as int, i as int),
            forall|k: int| 0 <= k < res@.len() ==> !is_space(text@[(#[trigger] res@[k]).1 - 1]),
            i > start && !is_space(text@[i - 1]) ==> res@.len() > 0 && res@.last().1 == i,
        decreases end - i,
    {
        let ghost before = text@.subrange(start as int, i as int);
        let ghost now = text@.subrange(start as int, i + 1);
        assert(now.drop_last() =~= before);
        assert(now.last() == text@[i as int]);
        let ghost prev = res@;
        let c = text[i];
        if is_space_char(c) {
        } else if i > start && !is_space_char(text[i - 1]) {
            assert(before.last() == text@[i - 1]);
            let last = res.len() - 1;
            let (a, _) = res[last];
            res.set(last, (a, i + 1));
            proof {
                let f = fields(before);
                assert(text@.subrange(a as int, i + 1) =~= text@.subrange(a as int, i as int).push(c));
                assert forall|k: int| 0 <= k < res@.len() implies {
                    &&& (#[trigger] res@[k]).0 <= res@[k].1 <= text@.len()
                    &&& text@.subrange(res@[k].0 as int, res@[k].1 as int) == fields(now)[k]
                } by {
                    if k < last {
                        assert(res@[k] == prev[k]);
                    }
                }
            }
        } else {
            proof {
                if i > start {
                    assert(before.last() == text@[i - 1]);
                }
                assert(text@.subrange(i as int, i + 1) =~= seq![c]);
            }
            res.push((i, i + 1));
            proof {
                assert forall|k: int| 0 <= k < res@.len() implies {
                    &&& (#[trigger] res@[k]).0 <= res@[k].1 <= text@.len()
                    &&& text@.subrange(res@[k].0 as int, res@[k].1 as int) == fields(now)[k]
                } by {
                    if k < res@.len() - 1 {
                        assert(res@[k] == prev[k]);
                    }
                }
            }
        }
        i = i + 1;
    }
    res
}

/// The span of `text[start..end]` with whitespace removed at both ends.
pub fn trim_span(text: &Vec<char>, start: usize, end: usize) -> (res: (usize, usize))
    requires
        start <= end <= text@.len(),
    ensures
        start <= res.0 <= res.1 <= end,
        text@.subrange(res.0 as int, res.1 as int) == trim(text@.subrange(start as int, end as int)),
{
    let mut a = start;
    while a < end && is_space_char(text[a])
        invariant
            start <= a <= end <= text@.len(),
            trim_start(text@.subrange(start as int, end as int)) == trim_start(
                text@.subrange(a as int, end as int),
            ),
        decreases end - a,
    {
        assert(text@.subrange(a as int, end as int).drop_first() =~= text@.subrange(
            a + 1,
            end as int,
        ));
        a = a + 1;
    }
    let mut b = end;
    while b > a && is_space_char(text[b - 1])
        invariant
            start <= a <= b <= end <= text@.len(),
            trim_start(text@.subrange(start as int, end as int)) == text@.subrange(
                a as int,
                end as int,
            ),
            trim_end(text@.subrange(a as int, end as int)) == trim_end(
                text@.subrange(a as int, b as int),
            ),
        decreases b - a,
    {
        assert(text@.subrange(a as int, b as int).drop_last() =~= text@.subrange(
            a as int,
            b - 1,
        ));
        b = b - 1;
    }
    (a, b)
}

/// `text[start..end].parse::<u64>()`, as an `Option`.
pub fn parse_u64_span(text: &Vec<char>, start: usize, end: usize) -> (res: Option<u64>)
    requires
        start <= end <= text@.len(),
    ensures
        res == parsed_u64(text@.subrange(start as int, end as int)),
{
    let ghost s = text@.subrange(start as int, end as int);
    let mut first = start;
    if start < end && text[start] == '+' {
        first = start + 1;
    }
    let ghost d = text@.subrange(first as int, end as int);
    assert(d =~= unsigned_digits(s));
    if first == end {
        return None;
    }
    let mut value: u64 = 0;
    let mut i = first;
    while i < end
        invariant
            first <= i <= end <= text@.len(),
            d == text@.subrange(first as int, end as int),
            d == unsigned_digits(text@.subrange(start as int, end as int)),
            d.len() > 0,
            all_digits(d.take(i - first)),
            value == decimal_value(d.take(i - first)),
        decreases end - i,
    {
        let ghost k = i - first;
        assert(d.take(k + 1).drop_last() =~= d.take(k));
        assert(d.take(k + 1).last() == text@[i as int]);
        let c = text[i];
        if !('0' <= c && c <= '9') {
            assert(!is_ascii_digit(d[k]));
            return None;
        }
        let digit = ((c as u32) - ('0' as u32)) as u64;
        assert(digit == digit_value(d[k]));
        assert(decimal_value(d.take(k + 1)) == value * 10 + digit);
        let next = match value.checked_mul(10) {
            Some(v) => v.checked_add(digit),
            None => None,
        };
        match next {
            Some(v) => {
                value = v;
            },
            None => {
                proof {
                    if all_digits(d) {
                        lemma_decimal_prefix_le(d, k + 1);
                    }
                }
                return None;
            },
        }
        i = i + 1;
    }
    assert(d.take(d.len() as int) =~= d);
    Some(value)
}

/// The lines of `text`, as spans into `text`.
pub fn line_spans(text: &Vec<char>) -> (res: Vec<(usize, usize)>)
    ensures
        spans_name(text@, res@, lines(text@)),
        line_positions(text@, res@),
{
    let n = text.len();
    let mut done: Vec<(usize, usize)> = Vec::new();
    let mut start: usize = 0;
    let mut i: usize = 0;
    assert(text@.take(0) =~= seq![]);
    while i < n
        invariant
            n == text@.len(),
            start <= i <= n,
            newline_pieces(text@.take(i as int)).len() >= 1,
            spans_name(
                text@,
                done@,
                newline_pieces(text@.take(i as int)).drop_last().map_values(
                    |l: Seq<char>| strip_cr(l),
                ),
            ),
            text@.subrange(start as int, i as int) == newline_pieces(text@.take(i as int)).last(),
            done@.len() == 0 ==> start == 0,
            done@.len() > 0 ==> done@[0].0 == 0,
            forall|k: int|
                0 <= k < done@.len() - 1 ==> is_line_break(
                    text@,
                    (#[trigger] done@[k]).1 as int,
                    done@[k + 1].0 as int,
                ),
            done@.len() > 0 ==> is_line_break(text@, done@.last().1 as int, start as int),
        decreases n - i,
    {
        let ghost before = text@.take(i as int);
        let ghost now = text@.take(i + 1);
        let ghost p = newline_pieces(before);
        let ghost prev = done@;
        assert(now.drop_last() =~= before);
        assert(now.last() == text@[i as int]);
        proof {
            lemma_newline_pieces_nonempty(now);
        }
        if text[i] == '\n' {
            let mut end = i;
            if i > start && text[i - 1] == '\r' {
                end = i - 1;
                assert(p.last().last() == text@[i - 1]);
                assert(text@.subrange(start as int, end as int) =~= p.last().drop_last());
            }
            done.push((start, end));
            start = i + 1;
            proof {
                let q = newline_pieces(now);
                assert(q == p.push(seq![]));
                assert(q.drop_last() =~= p);
                assert(p.drop_last().push(p.last()) =~= p);
                let m = q.drop_last().map_values(|l: Seq<char>| strip_cr(l));
                assert forall|k: int| 0 <= k < done@.len() implies {
                    &&& (#[trigger] done@[k]).0 <= done@[k].1 <= text@.len()
                    &&& text@.subrange(done@[k].0 as int, done@[k].1 as int) == m[k]
                } by {
                    if k < done@.len() - 1 {
                        assert(done@[k] == prev[k]);
                        assert(p[k] == p.drop_last()[k]);
                    }
                }
                assert(text@.subrange(start as int, i + 1) =~= seq![]);
            }
        } else {
            proof {
                let q = newline_pieces(now);
                assert(q == p.update(p.len() - 1, p.last().push(text@[i as int])));
                assert(q.drop_last() =~= p.drop_last());
                assert(text@.subrange(start as int, i + 1) =~= text@.subrange(
                    start as int,
                    i as int,
                ).push(text@[i as int]));
            }
        }
        i = i + 1;
    }
    assert(text@.take(n as int) =~= text@);
    let ghost p = newline_pieces(text@);
    let ghost prev = done@;
    if start < n {
        done.push((start, n));
        proof {
            let m = p.drop_last().map_values(|l: Seq<char>| strip_cr(l));
            assert forall|k: int| 0 <= k < done@.len() implies {
                &&& (#[trigger] done@[k]).0 <= done@[k].1 <= text@.len()
                &&& text@.subrange(done@[k].0 as int, done@[k].1 as int) == lines(text@)[k]
            } by {
                if k < done@.len() - 1 {
                    assert(done@[k] == prev[k]);
                }
            }
        }
    }
    done
}

} // verus!
