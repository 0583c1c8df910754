use vstd::prelude::*;

verus! {

/// What parts the text of an OBJ file.
#[derive(Clone, Copy)]
pub enum Separator {
    /// The end of a line.
    Line,
    /// A plain white-space character.
    Blank,
    /// What stands between the references of one corner of a face.
    Slash,
}

pub open spec fn is_space(b: u8) -> bool {
    b == 32 || 9 <= b <= 13
}

impl Separator {
    pub open spec fn separates(self, b: u8) -> bool {
        match self {
            Separator::Line => b == 10,
            Separator::Blank => is_space(b),
            Separator::Slash => b == 47,
        }
    }

    fn is_at(self, b: u8) -> (r: bool)
        ensures
            r == self.separates(b),
    {
        match self {
            Separator::Line => b == 10,
            Separator::Blank => b == 32 || (9 <= b && b <= 13),
            Separator::Slash => b == 47,
        }
    }
}

/// The two bytes are a white-space character in UTF-8.
pub open spec fn is_wide_space_2(a: u8, b: u8) -> bool {
    a == 0xc2 && (b == 0x85 || b == 0xa0)
}

/// The three bytes are a white-space character in UTF-8.
pub open spec fn is_wide_space_3(a: u8, b: u8, c: u8) -> bool {
    ||| a == 0xe1 && b == 0x9a && c == 0x80
    ||| a == 0xe2 && b == 0x80 && (0x80 <= c <= 0x8a || c == 0xa8 || c == 0xa9 || c == 0xaf)
    ||| a == 0xe2 && b == 0x81 && c == 0x9f
    ||| a == 0xe3 && b == 0x80 && c == 0x80
}

/// A white-space character of more than one byte starts at `i`.
pub open spec fn wide_space_starts(s: Seq<u8>, i: int) -> bool {
    ||| 0 <= i && i + 1 < s.len() && is_wide_space_2(s[i], s[i + 1])
    ||| 0 <= i && i + 2 < s.len() && is_wide_space_3(s[i], s[i + 1], s[i + 2])
}

/// Byte `i` belongs to a white-space character of more than one byte.
pub open spec fn in_wide_space(s: Seq<u8>, i: int) -> bool {
    ||| wide_space_starts(s, i)
    ||| wide_space_starts(s, i - 1)
    ||| i >= 2 && i < s.len() && is_wide_space_3(s[i - 2], s[i - 1], s[i])
}

/// The text with spaces for the white-space characters of more than one byte.
pub open spec fn plain_spaced(s: Seq<u8>) -> Seq<u8> {
    Seq::new(
        s.len(),
        |i: int|
            if in_wide_space(s, i) {
                32u8
            } else {
                s[i]
            },
    )
}

fn starts_wide_space(s: &[u8], i: usize) -> (r: bool)
    requires
        i < s@.len(),
    ensures
        r == wide_space_starts(s@, i as int),
{
    let left: usize = s.len() - i;
    if left < 2 {
        return false;
    }
    let a: u8 = s[i];
    let b: u8 = s[i + 1];
    if a == 0xc2 && (b == 0x85 || b == 0xa0) {
        return true;
    }
    if left < 3 {
        return false;
    }
    let c: u8 = s[i + 2];
    (a == 0xe1 && b == 0x9a && c == 0x80) || (a == 0xe2 && b == 0x80 && ((0x80 <= c && c <= 0x8a) || c
        == 0xa8 || c == 0xa9 || c == 0xaf)) || (a == 0xe2 && b == 0x81 && c == 0x9f) || (a == 0xe3
        && b == 0x80 && c == 0x80)
}

fn with_plain_spaces(s: &[u8]) -> (r: Vec<u8>)
    ensures
        r@ == plain_spaced(s@),
{
    let mut out: Vec<u8> = Vec::new();
    let mut i: usize = 0;
    while i < s.len()
        invariant
            i <= s@.len(),
            out@ == plain_spaced(s@).take(i as int),
        decreases s@.len() - i,
    {
        // The second byte of a two-byte character, or the second or third of a
        // three-byte one, is found from where the character starts.
        let blank: bool = starts_wide_space(s, i) || (i >= 1 && starts_wide_space(s, i - 1)) || (i
            >= 2 && s[i - 2] >= 0xe1 && starts_wide_space(s, i - 2));
        let b: u8 = if blank {
            32
        } else {
            s[i]
        };
        assert(plain_spaced(s@)[i as int] == b);
        out.push(b);
        assert(plain_spaced(s@).take(i + 1) =~= plain_spaced(s@).take(i as int).push(b));
        i = i + 1;
    }
    assert(plain_spaced(s@).take(i as int) =~= plain_spaced(s@));
    out
}

/// The pieces between separators, empty ones too.
pub open spec fn split(s: Seq<u8>, at: Separator) -> Seq<Seq<u8>>
    decreases s.len(),
{
    if s.len() == 0 {
        seq![Seq::empty()]
    } else {
        let front = split(s.drop_last(), at);
        if at.separates(s.last()) {
            front.push(Seq::empty())
        } else {
            front.drop_last().push(front.last().push(s.last()))
        }
    }
}

/// The pieces one behind the other, with `between` between them.
pub open spec fn join(pieces: Seq<Seq<u8>>, between: u8) -> Seq<u8>
    decreases pieces.len(),
{
    if pieces.len() == 0 {
        Seq::empty()
    } else if pieces.len() == 1 {
        pieces[0]
    } else {
        join(pieces.drop_last(), between).push(between) + pieces.last()
    }
}

pub open spec fn contents(pieces: Seq<Vec<u8>>) -> Seq<Seq<u8>> {
    Seq::new(pieces.len(), |i: int| pieces[i]@)
}

/// Every byte is one that `allowed` allows.
spec fn all_bytes(s: Seq<u8>, allowed: spec_fn(u8) -> bool) -> bool {
    forall|i: int| 0 <= i < s.len() ==> #[trigger] allowed(s[i])
}

spec fn all_pieces(pieces: Seq<Seq<u8>>, allowed: spec_fn(u8) -> bool) -> bool {
    forall|i: int| 0 <= i < pieces.len() ==> all_bytes(#[trigger] pieces[i], allowed)
}

/// Bytes that do not part anything by `at`.
spec fn whole(at: Separator) -> spec_fn(u8) -> bool {
    |b: u8| !at.separates(b)
}

proof fn lemma_split_not_empty(s: Seq<u8>, at: Separator)
    ensures
        split(s, at).len() > 0,
    decreases s.len(),
{
    if s.len() > 0 {
        lemma_split_not_empty(s.drop_last(), at);
    }
}

/// What holds of every byte but the separators holds of every byte of the pieces.
proof fn lemma_split_bytes(
    s: Seq<u8>,
    at: Separator,
    given: spec_fn(u8) -> bool,
    allowed: spec_fn(u8) -> bool,
)
    requires
        all_bytes(s, given),
        forall|b: u8| #[trigger] given(b) && !at.separates(b) ==> allowed(b),
    ensures
        all_pieces(split(s, at), allowed),
    decreases s.len(),
{
    if s.len() > 0 {
        let rest = s.drop_last();
        assert forall|i: int| 0 <= i < rest.len() implies #[trigger] given(rest[i]) by {
            assert(rest[i] == s[i]);
        }
        lemma_split_bytes(rest, at, given, allowed);
        lemma_split_not_empty(rest, at);
        let front = split(rest, at);
        assert(given(s[s.len() - 1]));
        assert(all_bytes(front[front.len() - 1], allowed));
    }
}

proof fn lemma_join_bytes(pieces: Seq<Seq<u8>>, between: u8, allowed: spec_fn(u8) -> bool)
    requires
        all_pieces(pieces, allowed),
        allowed(between),
    ensures
        all_bytes(join(pieces, between), allowed),
    decreases pieces.len(),
{
    if pieces.len() == 1 {
        assert(all_bytes(pieces[0], allowed));
    }
    if pieces.len() > 1 {
        let front = pieces.drop_last();
        assert forall|i: int| 0 <= i < front.len() implies all_bytes(
            #[trigger] front[i],
            allowed,
        ) by {
            assert(front[i] == pieces[i]);
        }
        lemma_join_bytes(front, between, allowed);
        let last = pieces[pieces.len() - 1];
        assert(all_bytes(last, allowed));
        let head = join(front, between);
        let whole = join(pieces, between);
        assert(whole == head.push(between) + last);
        assert forall|i: int| 0 <= i < whole.len() implies #[trigger] allowed(whole[i]) by {
            if i < head.len() {
                assert(whole[i] == head[i]);
            } else if i > head.len() {
                assert(whole[i] == last[i - head.len() - 1]);
            }
        }
    }
}

proof fn lemma_split_append(s: Seq<u8>, t: Seq<u8>, at: Separator)
    requires
        all_bytes(t, whole(at)),
    ensures
        split(s + t, at) == split(s, at).drop_last().push(split(s, at).last() + t),
    decreases t.len(),
{
    lemma_split_not_empty(s, at);
    let front = split(s, at);
    if t.len() == 0 {
        assert(s + t =~= s);
        assert(front.last() + t =~= front.last());
        assert(front =~= front.drop_last().push(front.last()));
    } else {
        let short = t.drop_last();
        assert forall|i: int| 0 <= i < short.len() implies #[trigger] whole(at)(short[i]) by {
            assert(whole(at)(t[i]));
        }
        lemma_split_append(s, short, at);
        assert((s + t).drop_last() =~= s + short);
        assert(whole(at)(t[t.len() - 1]));
        assert((s + t).last() == t.last());
        let longer = front.last() + short;
        assert(longer.push(t.last()) =~= front.last() + t);
        assert(front.drop_last().push(longer).drop_last() =~= front.drop_last());
    }
}

/// Splitting undoes joining.
proof fn lemma_split_join(pieces: Seq<Seq<u8>>, between: u8, at: Separator)
    requires
        pieces.len() > 0,
        at.separates(between),
        all_pieces(pieces, whole(at)),
    ensures
        split(join(pieces, between), at) == pieces,
    decreases pieces.len(),
{
    let last = pieces[pieces.len() - 1];
    assert(all_bytes(last, whole(at)));
    if pieces.len() == 1 {
        lemma_split_append(Seq::empty(), last, at);
        assert(Seq::<u8>::empty() + last =~= last);
        assert(split(last, at) =~= pieces);
    } else {
        let front = pieces.drop_last();
        assert forall|i: int| 0 <= i < front.len() implies all_bytes(
            #[trigger] front[i],
            whole(at),
        ) by {
            assert(front[i] == pieces[i]);
        }
        lemma_split_join(front, between, at);
        let head = join(front, between).push(between);
        assert(head.drop_last() =~= join(front, between));
        assert(split(head, at) == front.push(Seq::empty()));
        lemma_split_append(head, last, at);
        assert(split(head, at).drop_last() =~= front);
        assert(Seq::<u8>::empty() + last =~= last);
        assert(front.push(last) =~= pieces);
    }
}

/// Joining undoes splitting.
proof fn lemma_join_split(s: Seq<u8>, between: u8, at: Separator)
    requires
        forall|b: u8| #[trigger] at.separates(b) ==> b == between,
    ensures
        join(split(s, at), between) == s,
    decreases s.len(),
{
    if s.len() > 0 {
        let rest = s.drop_last();
        lemma_join_split(rest, between, at);
        lemma_split_not_empty(rest, at);
        let front = split(rest, at);
        if at.separates(s.last()) {
            let pieces = front.push(Seq::empty());
            assert(pieces.drop_last() =~= front);
            assert(join(pieces, between) =~= s);
        } else {
            let pieces = front.drop_last().push(front.last().push(s.last()));
            assert(pieces.drop_last() =~= front.drop_last());
            assert(join(pieces, between) =~= join(front, between).push(s.last()));
            assert(join(pieces, between) =~= s);
        }
    }
}

proof fn lemma_join_len(pieces: Seq<Seq<u8>>, between: u8)
    requires
        pieces.len() > 0,
    ensures
        join(pieces, between).len() >= pieces.len() - 1,
    decreases pieces.len(),
{
    if pieces.len() > 1 {
        lemma_join_len(pieces.drop_last(), between);
    }
}

fn split_bytes(s: &[u8], at: Separator) -> (r: Vec<Vec<u8>>)
    ensures
        contents(r@) == split(s@, at),
{
    let mut pieces: Vec<Vec<u8>> = Vec::new();
    let mut piece: Vec<u8> = Vec::new();
    let mut i: usize = 0;
    assert(s@.take(0) =~= Seq::<u8>::empty());
    while i < s.len()
        invariant
            i <= s@.len(),
            pieces@.len() + 1 == split(s@.take(i as int), at).len(),
            forall|j: int|
                0 <= j < pieces@.len() ==> (#[trigger] pieces@[j])@ == split(s@.take(i as int), at)[j],
            piece@ == split(s@.take(i as int), at).last(),
        decreases s@.len() - i,
    {
        let b: u8 = s[i];
        proof {
            lemma_split_not_empty(s@.take(i as int), at);
            assert(s@.take(i + 1).drop_last() =~= s@.take(i as int));
            assert(s@.take(i + 1).last() == b);
        }
        if at.is_at(b) {
            pieces.push(piece);
            piece = Vec::new();
        } else {
            piece.push(b);
        }
        i = i + 1;
    }
    assert(s@.take(i as int) =~= s@);
    pieces.push(piece);
    assert(contents(pieces@) =~= split(s@, at));
    pieces
}

fn join_bytes(pieces: &Vec<Vec<u8>>, between: u8) -> (r: Vec<u8>)
    ensures
        r@ == join(contents(pieces@), between),
{
    let ghost all = contents(pieces@);
    let mut out: Vec<u8> = Vec::new();
    let mut i: usize = 0;
    while i < pieces.len()
        invariant
            all == contents(pieces@),
            i <= pieces@.len(),
            out@ == join(all.take(i as int), between),
        decreases pieces@.len() - i,
    {
        let ghost before = out@;
        if i > 0 {
            out.push(between);
        }
        out.extend_from_slice(pieces[i].as_slice());
        proof {
            assert(all.take(i + 1).drop_last() =~= all.take(i as int));
            assert(all.take(i + 1).last() == pieces@[i as int]@);
            if i == 0 {
                assert(out@ =~= pieces@[i as int]@);
            } else {
                assert(out@ =~= before.push(between) + pieces@[i as int]@);
            }
        }
        i = i + 1;
    }
    assert(all.take(i as int) =~= all);
    out
}

/// How many of the first `n` pieces are not empty.
pub open spec fn word_count(pieces: Seq<Seq<u8>>, n: int) -> nat
    decreases n,
{
    if n <= 0 {
        0
    } else {
        word_count(pieces, n - 1) + if pieces[n - 1].len() > 0 {
            1nat
        } else {
            0
        }
    }
}

/// The first of the first `n` pieces that is not empty, or an empty one.
pub open spec fn first_word(pieces: Seq<Seq<u8>>, n: int) -> Seq<u8>
    decreases n,
{
    if n <= 0 {
        Seq::empty()
    } else if first_word(pieces, n - 1).len() > 0 {
        first_word(pieces, n - 1)
    } else {
        pieces[n - 1]
    }
}

/// What stands between the white space of a line, empty pieces too.
pub open spec fn words_of(line: Seq<u8>) -> Seq<Seq<u8>> {
    split(plain_spaced(line), Separator::Blank)
}

pub open spec fn keyword(line: Seq<u8>) -> Seq<u8> {
    first_word(words_of(line), words_of(line).len() as int)
}

/// What the keyword of a line says it is.
#[derive(Clone, Copy, PartialEq, Eq, Structural)]
pub enum LineKind {
    Texcoord,
    Normal,
    Face,
    /// An object or a group, which ends the model before it.
    ModelEnd,
    Other,
}

pub open spec fn kind(line: Seq<u8>) -> LineKind {
    let word = keyword(line);
    if word == seq![118u8, 116u8] {
        LineKind::Texcoord
    } else if word == seq![118u8, 110u8] {
        LineKind::Normal
    } else if word == seq![102u8] || word == seq![108u8] {
        LineKind::Face
    } else if word == seq![111u8] || word == seq![103u8] {
        LineKind::ModelEnd
    } else {
        LineKind::Other
    }
}

/// A face of at least three corners, which becomes triangles. Where a byte of a corner is
/// not ASCII, the corner is not made of numbers, and the line is no face.
pub open spec fn is_face(line: Seq<u8>) -> bool {
    &&& kind(line) is Face
    &&& word_count(words_of(line), words_of(line).len() as int) >= 4
    &&& forall|i: int| 0 <= i < line.len() ==> #[trigger] plain_spaced(line)[i] < 128
}

/// What a corner of a face may refer to beside its position.
#[derive(Clone, Copy)]
pub enum Attribute {
    Texcoord,
    Normal,
}

impl Attribute {
    /// The kind of line that declares one.
    pub open spec fn declared_by(self) -> LineKind {
        match self {
            Attribute::Texcoord => LineKind::Texcoord,
            Attribute::Normal => LineKind::Normal,
        }
    }

    /// Which of the corner's references it is.
    pub open spec fn place(self) -> int {
        match self {
            Attribute::Texcoord => 1,
            Attribute::Normal => 2,
        }
    }
}

/// How many of the first `n` lines declare the attribute.
pub open spec fn declared(lines: Seq<Seq<u8>>, n: int, attribute: Attribute) -> nat
    decreases n,
{
    if n <= 0 {
        0
    } else {
        declared(lines, n - 1, attribute) + if kind(lines[n - 1]) == attribute.declared_by() {
            1nat
        } else {
            0
        }
    }
}

/// Where the model that line `k` belongs to ends: at the next object or group, or at the
/// end of the data.
pub open spec fn model_end(lines: Seq<Seq<u8>>, k: int) -> int
    decreases lines.len() - k,
{
    if k + 1 >= lines.len() {
        lines.len() as int
    } else if kind(lines[k + 1]) is ModelEnd {
        k + 1
    } else {
        model_end(lines, k + 1)
    }
}

/// References to the attribute matter in line `k`: one has been declared when its model
/// ends, which is when the faces of the model are made.
pub open spec fn matters(lines: Seq<Seq<u8>>, k: int, attribute: Attribute) -> bool {
    declared(lines, model_end(lines, k), attribute) > 0
}

pub open spec fn digits_only(s: Seq<u8>) -> bool {
    forall|i: int| 0 <= i < s.len() ==> 48 <= #[trigger] s[i] <= 57
}

pub open spec fn number(s: Seq<u8>) -> nat
    decreases s.len(),
{
    if s.len() == 0 {
        0
    } else {
        (number(s.drop_last()) * 10 + (s.last() - 48)) as nat
    }
}

/// A reference, with `count` elements declared before it, that can be turned into
/// an offset without leaving the range of `usize`: counted back, it goes no more
/// than one element beyond the first; counted from the start, it is at most a third
/// of the largest `usize`. What is not a number of the range of `isize` is no reference.
pub open spec fn resolvable(field: Seq<u8>, count: nat) -> bool {
    if field.len() > 0 && field[0] == 45 {
        let n = number(field.skip(1));
        digits_only(field.skip(1)) ==> n <= count + 1 || n > isize::MAX + 1
    } else if field.len() > 0 && field[0] == 43 {
        let n = number(field.skip(1));
        digits_only(field.skip(1)) ==> n <= usize::MAX / 3 || n > isize::MAX
    } else {
        let n = number(field);
        digits_only(field) ==> n <= usize::MAX / 3 || n > isize::MAX
    }
}

/// A reference in line `k` to the attribute is resolvable, or does not matter.
pub open spec fn field_resolvable(
    field: Seq<u8>,
    lines: Seq<Seq<u8>>,
    k: int,
    attribute: Attribute,
) -> bool {
    matters(lines, k, attribute) ==> resolvable(field, declared(lines, k, attribute))
}

pub open spec fn corner_resolvable(
    corner: Seq<u8>,
    lines: Seq<Seq<u8>>,
    k: int,
    attribute: Attribute,
) -> bool {
    let fields = split(corner, Separator::Slash);
    fields.len() > attribute.place() ==> field_resolvable(
        fields[attribute.place()],
        lines,
        k,
        attribute,
    )
}

/// The references of line `k` to the attribute are resolvable or do not matter.
pub open spec fn line_resolvable(lines: Seq<Seq<u8>>, k: int, attribute: Attribute) -> bool {
    is_face(lines[k]) ==> forall|w: int|
        0 <= w < words_of(lines[k]).len() ==> corner_resolvable(
            #[trigger] words_of(lines[k])[w],
            lines,
            k,
            attribute,
        )
}

/// Every texture and normal reference that matters is resolvable.
pub open spec fn references_resolvable(bytes: Seq<u8>) -> bool {
    let lines = split(bytes, Separator::Line);
    forall|k: int, attribute: Attribute|
        0 <= k < lines.len() ==> #[trigger] line_resolvable(lines, k, attribute)
}

pub open spec fn digits(n: nat) -> Seq<u8>
    decreases n,
{
    let last = (48 + n % 10) as u8;
    if n < 10 {
        seq![last]
    } else {
        digits(n / 10).push(last)
    }
}

/// A reference that is resolvable, and farther than any data has elements.
pub open spec fn far_reference() -> Seq<u8> {
    digits((usize::MAX / 3) as nat)
}

/// A reference in line `k`, or a far one in its place where it is not resolvable. Both are
/// out of bounds then.
pub open spec fn bounded_field(
    field: Seq<u8>,
    lines: Seq<Seq<u8>>,
    k: int,
    attribute: Attribute,
) -> Seq<u8> {
    if field_resolvable(field, lines, k, attribute) {
        field
    } else {
        far_reference()
    }
}

pub open spec fn bounded_fields(corner: Seq<u8>, lines: Seq<Seq<u8>>, k: int) -> Seq<Seq<u8>> {
    let fields = split(corner, Separator::Slash);
    Seq::new(
        fields.len(),
        |f: int|
            if f == 1 {
                bounded_field(fields[f], lines, k, Attribute::Texcoord)
            } else if f == 2 {
                bounded_field(fields[f], lines, k, Attribute::Normal)
            } else {
                fields[f]
            },
    )
}

pub open spec fn bounded_corner(corner: Seq<u8>, lines: Seq<Seq<u8>>, k: int) -> Seq<u8> {
    join(bounded_fields(corner, lines, k), 47)
}

pub open spec fn bounded_words(lines: Seq<Seq<u8>>, k: int) -> Seq<Seq<u8>> {
    let words = words_of(lines[k]);
    Seq::new(words.len(), |w: int| bounded_corner(words[w], lines, k))
}

/// Line `k`, with far references in place of those that are not resolvable.
pub open spec fn bounded_line(lines: Seq<Seq<u8>>, k: int) -> Seq<u8> {
    if line_resolvable(lines, k, Attribute::Texcoord) && line_resolvable(
        lines,
        k,
        Attribute::Normal,
    ) {
        lines[k]
    } else {
        join(bounded_words(lines, k), 32)
    }
}

pub open spec fn bounded_lines(lines: Seq<Seq<u8>>) -> Seq<Seq<u8>> {
    Seq::new(lines.len(), |k: int| bounded_line(lines, k))
}

/// The data, with far references in place of those that matter and are not resolvable.
pub open spec fn bounded(bytes: Seq<u8>) -> Seq<u8> {
    join(bounded_lines(split(bytes, Separator::Line)), 10)
}

/// Data whose references are all resolvable stays as it is.
pub proof fn law_resolvable_data_stays(bytes: Seq<u8>)
    requires
        references_resolvable(bytes),
    ensures
        bounded(bytes) == bytes,
{
    let lines = split(bytes, Separator::Line);
    assert forall|k: int| 0 <= k < lines.len() implies bounded_line(lines, k) == lines[k] by {
        assert(line_resolvable(lines, k, Attribute::Texcoord));
        assert(line_resolvable(lines, k, Attribute::Normal));
    }
    assert(bounded_lines(lines) =~= lines);
    lemma_join_split(bytes, 10, Separator::Line);
}

proof fn lemma_digits(n: nat)
    ensures
        digits(n).len() > 0,
        digits_only(digits(n)),
        number(digits(n)) == n,
    decreases n,
{
    if n >= 10 {
        lemma_digits(n / 10);
        assert(digits(n).drop_last() =~= digits(n / 10));
        assert(digits(n).last() == 48 + n % 10);
    } else {
        assert(digits(n).drop_last() =~= Seq::<u8>::empty());
        assert(number(Seq::<u8>::empty()) == 0);
        assert(digits(n).last() == 48 + n);
    }
}

proof fn lemma_far_reference(count: nat)
    ensures
        resolvable(far_reference(), count),
        all_bytes(far_reference(), in_field()),
{
    lemma_digits((usize::MAX / 3) as nat);
    let far = far_reference();
    assert(48 <= far[0] <= 57);
}

spec fn ascii() -> spec_fn(u8) -> bool {
    |b: u8| b < 128
}

spec fn in_word() -> spec_fn(u8) -> bool {
    |b: u8| b < 128 && !is_space(b)
}

spec fn in_field() -> spec_fn(u8) -> bool {
    |b: u8| b < 128 && !is_space(b) && b != 47
}

/// A corner with far references is still one word, with as many references.
proof fn lemma_bounded_corner(corner: Seq<u8>, lines: Seq<Seq<u8>>, k: int)
    requires
        all_bytes(corner, in_word()),
    ensures
        all_bytes(bounded_corner(corner, lines, k), in_word()),
        split(bounded_corner(corner, lines, k), Separator::Slash) == bounded_fields(
            corner,
            lines,
            k,
        ),
        corner.len() == 0 <==> bounded_corner(corner, lines, k).len() == 0,
        corner.len() <= 1 && !corner.contains(47) ==> bounded_corner(corner, lines, k) == corner,
{
    let fields = split(corner, Separator::Slash);
    let kept = bounded_fields(corner, lines, k);
    lemma_split_bytes(corner, Separator::Slash, in_word(), in_field());
    lemma_split_not_empty(corner, Separator::Slash);
    lemma_far_reference(0);
    assert(all_pieces(kept, in_field())) by {
        assert forall|f: int| 0 <= f < kept.len() implies all_bytes(#[trigger] kept[f], in_field()) by {
            assert(all_bytes(fields[f], in_field()));
        }
    }
    assert(all_pieces(kept, in_word())) by {
        assert forall|f: int| 0 <= f < kept.len() implies all_bytes(#[trigger] kept[f], in_word()) by {
            assert(all_bytes(kept[f], in_field()));
            assert forall|i: int| 0 <= i < kept[f].len() implies #[trigger] in_word()(kept[f][i]) by {
                assert(in_field()(kept[f][i]));
            }
        }
    }
    assert(all_pieces(kept, whole(Separator::Slash))) by {
        assert forall|f: int| 0 <= f < kept.len() implies all_bytes(
            #[trigger] kept[f],
            whole(Separator::Slash),
        ) by {
            assert(all_bytes(kept[f], in_field()));
            assert forall|i: int| 0 <= i < kept[f].len() implies #[trigger] whole(
                Separator::Slash,
            )(kept[f][i]) by {
                assert(in_field()(kept[f][i]));
            }
        }
    }
    lemma_join_bytes(kept, 47, in_word());
    lemma_split_join(kept, 47, Separator::Slash);
    lemma_join_split(corner, 47, Separator::Slash);
    lemma_join_len(kept, 47);
    if corner.len() == 0 {
        assert(fields =~= seq![Seq::empty()]);
        assert(kept =~= fields);
    }
    if corner.len() == 1 && !corner.contains(47) {
        assert(corner[0] != 47);
        assert(split(corner.drop_last(), Separator::Slash) =~= seq![Seq::<u8>::empty()]);
        assert(fields.len() == 1);
        assert(kept =~= fields);
    }
    if fields.len() == 1 {
        assert(kept =~= fields);
    }
}

/// The words of a face with far references.
proof fn lemma_bounded_words(lines: Seq<Seq<u8>>, k: int)
    requires
        is_face(lines[k]),
    ensures
        words_of(join(bounded_words(lines, k), 32)) == bounded_words(lines, k),
        kind(join(bounded_words(lines, k), 32)) == kind(lines[k]),
        all_bytes(join(bounded_words(lines, k), 32), whole(Separator::Line)),
{
    let line = lines[k];
    let words = words_of(line);
    let kept = bounded_words(lines, k);
    let text = join(kept, 32);
    assert forall|i: int| 0 <= i < plain_spaced(line).len() implies #[trigger] ascii()(
        plain_spaced(line)[i],
    ) by {}
    lemma_split_bytes(plain_spaced(line), Separator::Blank, ascii(), in_word());
    lemma_split_not_empty(plain_spaced(line), Separator::Blank);
    assert forall|w: int| 0 <= w < kept.len() implies all_bytes(#[trigger] kept[w], in_word()) by {
        assert(all_bytes(words[w], in_word()));
        lemma_bounded_corner(words[w], lines, k);
    }
    assert(all_pieces(kept, ascii())) by {
        assert forall|w: int| 0 <= w < kept.len() implies all_bytes(#[trigger] kept[w], ascii()) by {
            assert forall|i: int| 0 <= i < kept[w].len() implies #[trigger] ascii()(kept[w][i]) by {
                assert(in_word()(kept[w][i]));
            }
        }
    }
    assert(all_pieces(kept, whole(Separator::Blank))) by {
        assert forall|w: int| 0 <= w < kept.len() implies all_bytes(
            #[trigger] kept[w],
            whole(Separator::Blank),
        ) by {
            assert forall|i: int| 0 <= i < kept[w].len() implies #[trigger] whole(
                Separator::Blank,
            )(kept[w][i]) by {
                assert(in_word()(kept[w][i]));
            }
        }
    }
    assert(all_pieces(kept, whole(Separator::Line))) by {
        assert forall|w: int| 0 <= w < kept.len() implies all_bytes(
            #[trigger] kept[w],
            whole(Separator::Line),
        ) by {
            assert forall|i: int| 0 <= i < kept[w].len() implies #[trigger] whole(
                Separator::Line,
            )(kept[w][i]) by {
                assert(in_word()(kept[w][i]));
            }
        }
    }
    lemma_join_bytes(kept, 32, ascii());
    lemma_join_bytes(kept, 32, whole(Separator::Line));
    assert forall|i: int| 0 <= i < text.len() implies !in_wide_space(text, i) by {
        assert(ascii()(text[i]));
        if i >= 1 {
            assert(ascii()(text[i - 1]));
        }
        if i >= 2 {
            assert(ascii()(text[i - 2]));
        }
    }
    assert(plain_spaced(text) =~= text);
    lemma_split_join(kept, 32, Separator::Blank);
    lemma_first_bounded_word(lines, k, words.len() as int);
    let word = first_word(words, words.len() as int);
    assert(word.len() == 1 && !word.contains(47)) by {
        if word.contains(47) {
            let i = choose|i: int| 0 <= i < word.len() && word[i] == 47;
            assert(i == 0);
        }
    }
    assert(all_bytes(word, in_word())) by {
        assert(in_word()(word[0]));
    }
    lemma_bounded_corner(word, lines, k);
}

proof fn lemma_first_bounded_word(lines: Seq<Seq<u8>>, k: int, n: int)
    requires
        0 <= n <= words_of(lines[k]).len(),
        all_pieces(words_of(lines[k]), in_word()),
    ensures
        first_word(bounded_words(lines, k), n) == bounded_corner(
            first_word(words_of(lines[k]), n),
            lines,
            k,
        ),
        all_bytes(first_word(words_of(lines[k]), n), in_word()),
    decreases n,
{
    if n <= 0 {
        lemma_bounded_corner(Seq::empty(), lines, k);
    } else {
        let words = words_of(lines[k]);
        lemma_first_bounded_word(lines, k, n - 1);
        assert(all_bytes(words[n - 1], in_word()));
        lemma_bounded_corner(first_word(words, n - 1), lines, k);
    }
}

/// Lines of the same kinds declare as much, and end models in the same places.
proof fn lemma_same_kinds(
    lines: Seq<Seq<u8>>,
    others: Seq<Seq<u8>>,
    n: int,
    attribute: Attribute,
)
    requires
        lines.len() == others.len(),
        forall|i: int| 0 <= i < lines.len() ==> kind(#[trigger] lines[i]) == kind(others[i]),
        0 <= n <= lines.len(),
    ensures
        declared(lines, n, attribute) == declared(others, n, attribute),
    decreases n,
{
    if n > 0 {
        lemma_same_kinds(lines, others, n - 1, attribute);
        assert(kind(lines[n - 1]) == kind(others[n - 1]));
    }
}

proof fn lemma_same_ends(lines: Seq<Seq<u8>>, others: Seq<Seq<u8>>, k: int)
    requires
        lines.len() == others.len(),
        forall|i: int| 0 <= i < lines.len() ==> kind(#[trigger] lines[i]) == kind(others[i]),
        0 <= k < lines.len(),
    ensures
        model_end(lines, k) == model_end(others, k),
        k < model_end(lines, k) <= lines.len(),
    decreases lines.len() - k,
{
    if k + 1 < lines.len() {
        assert(kind(lines[k + 1]) == kind(others[k + 1]));
        lemma_same_ends(lines, others, k + 1);
    }
}

/// With far references in place of those that are not, every reference is resolvable.
pub proof fn law_bounded_data_is_resolvable(bytes: Seq<u8>)
    ensures
        references_resolvable(bounded(bytes)),
{
    let lines = split(bytes, Separator::Line);
    let kept = bounded_lines(lines);
    lemma_split_not_empty(bytes, Separator::Line);
    let any = |b: u8| true;
    assert(all_bytes(bytes, any));
    lemma_split_bytes(bytes, Separator::Line, any, whole(Separator::Line));
    assert forall|k: int| 0 <= k < lines.len() implies all_bytes(
        #[trigger] kept[k],
        whole(Separator::Line),
    ) && kind(kept[k]) == kind(lines[k]) by {
        assert(all_bytes(lines[k], whole(Separator::Line)));
        if kept[k] != lines[k] {
            lemma_bounded_words(lines, k);
        }
    }
    lemma_split_join(kept, 10, Separator::Line);
    assert(split(bounded(bytes), Separator::Line) == kept);
    assert forall|i: int| 0 <= i < kept.len() implies kind(#[trigger] kept[i]) == kind(lines[i]) by {}
    assert forall|k: int, attribute: Attribute| 0 <= k < kept.len() implies #[trigger] line_resolvable(
        kept,
        k,
        attribute,
    ) by {
        lemma_bounded_line(lines, kept, k, attribute);
    }
}

proof fn lemma_bounded_line(
    lines: Seq<Seq<u8>>,
    kept: Seq<Seq<u8>>,
    k: int,
    attribute: Attribute,
)
    requires
        kept == bounded_lines(lines),
        forall|i: int| 0 <= i < kept.len() ==> kind(#[trigger] kept[i]) == kind(lines[i]),
        0 <= k < lines.len(),
    ensures
        line_resolvable(kept, k, attribute),
{
    lemma_same_ends(kept, lines, k);
    lemma_same_kinds(kept, lines, k, attribute);
    lemma_same_kinds(kept, lines, model_end(lines, k), attribute);
    assert forall|field: Seq<u8>| #[trigger] field_resolvable(field, kept, k, attribute)
        == field_resolvable(field, lines, k, attribute) by {}
    if line_resolvable(lines, k, Attribute::Texcoord) && line_resolvable(
        lines,
        k,
        Attribute::Normal,
    ) {
        assert(kept[k] == lines[k]);
        assert(line_resolvable(lines, k, attribute));
        assert forall|w: int| 0 <= w < words_of(kept[k]).len() && is_face(kept[k]) implies corner_resolvable(
            #[trigger] words_of(kept[k])[w],
            kept,
            k,
            attribute,
        ) by {
            assert(corner_resolvable(words_of(lines[k])[w], lines, k, attribute));
        }
    } else {
        lemma_bounded_words(lines, k);
        let line = lines[k];
        let words = words_of(line);
        assert forall|i: int| 0 <= i < plain_spaced(line).len() implies #[trigger] ascii()(
            plain_spaced(line)[i],
        ) by {}
        lemma_split_bytes(plain_spaced(line), Separator::Blank, ascii(), in_word());
        assert forall|w: int| 0 <= w < words_of(kept[k]).len() implies corner_resolvable(
            #[trigger] words_of(kept[k])[w],
            kept,
            k,
            attribute,
        ) by {
            assert(all_bytes(words[w], in_word()));
            lemma_bounded_corner(words[w], lines, k);
            let fields = split(words[w], Separator::Slash);
            let corner = bounded_corner(words[w], lines, k);
            assert(words_of(kept[k])[w] == corner);
            assert(split(corner, Separator::Slash) == bounded_fields(words[w], lines, k));
            lemma_far_reference(declared(lines, k, attribute));
        }
    }
}

/// The number, where the text from `from` on is one, and the number after the largest
/// `u64` in place of larger ones.
fn number_from(s: &Vec<u8>, from: usize) -> (r: Option<u128>)
    requires
        from <= s@.len(),
    ensures
        r is Some <==> digits_only(s@.skip(from as int)),
        r matches Some(n) ==> n == if number(s@.skip(from as int)) <= u64::MAX {
            number(s@.skip(from as int)) as int
        } else {
            u64::MAX + 1
        },
{
    let ghost digits = s@.skip(from as int);
    let cap: u128 = u64::MAX as u128 + 1;
    let mut value: u128 = 0;
    let mut i: usize = from;
    assert(digits.take(0) =~= Seq::<u8>::empty());
    while i < s.len()
        invariant
            from <= i <= s@.len(),
            digits == s@.skip(from as int),
            cap == u64::MAX + 1,
            forall|j: int| 0 <= j < i - from ==> 48 <= #[trigger] digits[j] <= 57,
            value == if number(digits.take(i - from)) <= u64::MAX {
                number(digits.take(i - from)) as int
            } else {
                cap as int
            },
        decreases s@.len() - i,
    {
        let b: u8 = s[i];
        assert(b == digits[i - from]);
        if b < 48 || b > 57 {
            assert(!digits_only(digits));
            return None;
        }
        proof {
            assert(digits.take(i + 1 - from).drop_last() =~= digits.take(i - from));
            assert(digits.take(i + 1 - from).last() == b);
        }
        let longer: u128 = value * 10 + (b - 48) as u128;
        value = if longer > u64::MAX as u128 {
            cap
        } else {
            longer
        };
        i = i + 1;
    }
    assert(digits.take(i - from) =~= digits);
    Some(value)
}

fn is_resolvable(field: &Vec<u8>, count: u64) -> (r: bool)
    ensures
        r == resolvable(field@, count as nat),
{
    let third: u128 = (usize::MAX / 3) as u128;
    let most: u128 = isize::MAX as u128;
    if field.len() > 0 && field[0] == 45 {
        return match number_from(field, 1) {
            Some(n) => n <= count as u128 + 1 || n > most + 1,
            None => true,
        };
    }
    let from: usize = if field.len() > 0 && field[0] == 43 {
        1
    } else {
        0
    };
    assert(field@.skip(0) =~= field@);
    match number_from(field, from) {
        Some(n) => n <= third || n > most,
        None => true,
    }
}

fn digits_of(n: usize) -> (r: Vec<u8>)
    ensures
        r@ == digits(n as nat),
    decreases n,
{
    let mut out: Vec<u8> = if n < 10 {
        Vec::new()
    } else {
        digits_of(n / 10)
    };
    let ghost before = out@;
    out.push(48 + (n % 10) as u8);
    proof {
        if n < 10 {
            assert(out@ =~= digits(n as nat));
        } else {
            assert(out@ =~= digits(n as nat / 10).push((48 + n as nat % 10) as u8));
        }
    }
    out
}

/// The first piece that is not empty, and how many there are of those.
fn keyword_of(pieces: &Vec<Vec<u8>>) -> (r: (Vec<u8>, usize))
    ensures
        r.0@ == first_word(contents(pieces@), pieces@.len() as int),
        r.1 == word_count(contents(pieces@), pieces@.len() as int),
{
    let mut word: Vec<u8> = Vec::new();
    let mut count: usize = 0;
    let mut i: usize = 0;
    while i < pieces.len()
        invariant
            i <= pieces@.len(),
            count <= i,
            word@ == first_word(contents(pieces@), i as int),
            count == word_count(contents(pieces@), i as int),
        decreases pieces@.len() - i,
    {
        if word.len() == 0 {
            word = Vec::new();
            word.extend_from_slice(pieces[i].as_slice());
            assert(word@ =~= pieces@[i as int]@);
        }
        if pieces[i].len() > 0 {
            count = count + 1;
        }
        i = i + 1;
    }
    (word, count)
}

fn kind_of(line: &Vec<u8>) -> (r: LineKind)
    ensures
        r == kind(line@),
{
    let text = with_plain_spaces(line.as_slice());
    let pieces = split_bytes(text.as_slice(), Separator::Blank);
    let (word, _) = keyword_of(&pieces);
    assert(word@ == keyword(line@));
    if word.len() == 2 && word[0] == 118 {
        assert(word@ =~= seq![word@[0], word@[1]]);
        assert(word@ == seq![118u8, 116u8] <==> word@[1] == 116) by {
            assert(seq![118u8, 116u8][1] == 116);
        }
        assert(word@ == seq![118u8, 110u8] <==> word@[1] == 110) by {
            assert(seq![118u8, 110u8][1] == 110);
        }
        if word[1] == 116 {
            return LineKind::Texcoord;
        }
        if word[1] == 110 {
            return LineKind::Normal;
        }
        return LineKind::Other;
    }
    if word.len() == 1 {
        assert(word@ =~= seq![word@[0]]);
        let b: u8 = word[0];
        assert(forall|x: u8| word@ == #[trigger] seq![x] <==> b == x) by {
            assert forall|x: u8| word@ == #[trigger] seq![x] <==> b == x by {
                assert(seq![x][0] == x);
            }
        }
        if b == 102 || b == 108 {
            return LineKind::Face;
        }
        if b == 111 || b == 103 {
            return LineKind::ModelEnd;
        }
        return LineKind::Other;
    }
    LineKind::Other
}

fn kinds_of(lines: &Vec<Vec<u8>>) -> (r: Vec<LineKind>)
    ensures
        r@.len() == lines@.len(),
        forall|i: int| 0 <= i < lines@.len() ==> #[trigger] r@[i] == kind(lines@[i]@),
{
    let mut out: Vec<LineKind> = Vec::new();
    let mut i: usize = 0;
    while i < lines.len()
        invariant
            i <= lines@.len(),
            out@.len() == i,
            forall|j: int| 0 <= j < i ==> #[trigger] out@[j] == kind(lines@[j]@),
        decreases lines@.len() - i,
    {
        out.push(kind_of(&lines[i]));
        i = i + 1;
    }
    out
}

/// How many lines declare the attribute before each line, and before the end.
fn counts_of(
    kinds: &Vec<LineKind>,
    attribute: Attribute,
    Ghost(lines): Ghost<Seq<Seq<u8>>>,
) -> (r: Vec<u64>)
    requires
        kinds@.len() == lines.len(),
        forall|i: int| 0 <= i < lines.len() ==> #[trigger] kinds@[i] == kind(lines[i]),
    ensures
        r@.len() == lines.len() + 1,
        forall|n: int| 0 <= n <= lines.len() ==> #[trigger] r@[n] == declared(lines, n, attribute),
{
    let wanted: LineKind = match attribute {
        Attribute::Texcoord => LineKind::Texcoord,
        Attribute::Normal => LineKind::Normal,
    };
    let mut out: Vec<u64> = Vec::new();
    let mut count: u64 = 0;
    out.push(count);
    let mut i: usize = 0;
    while i < kinds.len()
        invariant
            kinds@.len() == lines.len(),
            forall|i: int| 0 <= i < lines.len() ==> #[trigger] kinds@[i] == kind(lines[i]),
            wanted == attribute.declared_by(),
            i <= lines.len(),
            count <= i,
            count == declared(lines, i as int, attribute),
            out@.len() == i + 1,
            forall|n: int| 0 <= n <= i ==> #[trigger] out@[n] == declared(lines, n, attribute),
        decreases lines.len() - i,
    {
        if kinds[i] == wanted {
            count = count + 1;
        }
        i = i + 1;
        out.push(count);
    }
    out
}

fn find_model_end(kinds: &Vec<LineKind>, k: usize, Ghost(lines): Ghost<Seq<Seq<u8>>>) -> (r: usize)
    requires
        kinds@.len() == lines.len(),
        forall|i: int| 0 <= i < lines.len() ==> #[trigger] kinds@[i] == kind(lines[i]),
        k < lines.len(),
    ensures
        r == model_end(lines, k as int),
        k < r <= lines.len(),
{
    let count: usize = kinds.len();
    let mut end: usize = k + 1;
    while end < count && kinds[end] != LineKind::ModelEnd
        invariant
            count == kinds@.len() == lines.len(),
            forall|i: int| 0 <= i < lines.len() ==> #[trigger] kinds@[i] == kind(lines[i]),
            k < end <= lines.len(),
            model_end(lines, k as int) == model_end(lines, end - 1),
        decreases lines.len() - end,
    {
        end = end + 1;
    }
    end
}

fn is_ascii(s: &Vec<u8>) -> (r: bool)
    ensures
        r == (forall|i: int| 0 <= i < s@.len() ==> #[trigger] s@[i] < 128),
{
    let mut i: usize = 0;
    while i < s.len()
        invariant
            i <= s@.len(),
            forall|j: int| 0 <= j < i ==> #[trigger] s@[j] < 128,
        decreases s@.len() - i,
    {
        if s[i] >= 128 {
            return false;
        }
        i = i + 1;
    }
    true
}

/// What the references of one line are held against.
#[derive(Clone, Copy)]
struct Reach {
    texcoords_matter: bool,
    texcoords: u64,
    normals_matter: bool,
    normals: u64,
}

impl Reach {
    spec fn is_at(self, lines: Seq<Seq<u8>>, k: int) -> bool {
        &&& self.texcoords_matter == matters(lines, k, Attribute::Texcoord)
        &&& self.texcoords == declared(lines, k, Attribute::Texcoord)
        &&& self.normals_matter == matters(lines, k, Attribute::Normal)
        &&& self.normals == declared(lines, k, Attribute::Normal)
    }
}

/// A corner with far references in place of those that are not resolvable, and whether
/// there were any.
fn bound_corner(
    corner: &Vec<u8>,
    reach: Reach,
    Ghost(lines): Ghost<Seq<Seq<u8>>>,
    Ghost(k): Ghost<int>,
) -> (r: (Vec<u8>, bool))
    requires
        reach.is_at(lines, k),
    ensures
        r.0@ == bounded_corner(corner@, lines, k),
        r.1 == !(corner_resolvable(corner@, lines, k, Attribute::Texcoord) && corner_resolvable(
            corner@,
            lines,
            k,
            Attribute::Normal,
        )),
{
    let mut fields = split_bytes(corner.as_slice(), Separator::Slash);
    let ghost before = contents(fields@);
    let mut changed: bool = false;
    if fields.len() > 1 && reach.texcoords_matter && !is_resolvable(&fields[1], reach.texcoords) {
        fields[1] = digits_of(usize::MAX / 3);
        changed = true;
    }
    if fields.len() > 2 && reach.normals_matter && !is_resolvable(&fields[2], reach.normals) {
        fields[2] = digits_of(usize::MAX / 3);
        changed = true;
    }
    assert(contents(fields@) =~= bounded_fields(corner@, lines, k));
    (join_bytes(&fields, 47), changed)
}

/// A line with far references in place of those that are not resolvable.
fn bound_line(
    line: &Vec<u8>,
    reach: Reach,
    Ghost(lines): Ghost<Seq<Seq<u8>>>,
    Ghost(k): Ghost<int>,
) -> (r: Option<Vec<u8>>)
    requires
        0 <= k < lines.len(),
        line@ == lines[k],
        kind(line@) is Face,
        reach.is_at(lines, k),
    ensures
        r matches Some(text) ==> text@ == bounded_line(lines, k),
        r is None ==> line@ == bounded_line(lines, k),
{
    let text = with_plain_spaces(line.as_slice());
    let words = split_bytes(text.as_slice(), Separator::Blank);
    assert(contents(words@) == words_of(line@));
    let (_, count) = keyword_of(&words);
    if count < 4 || !is_ascii(&text) {
        assert(!is_face(line@));
        return None;
    }
    assert(is_face(line@));
    let mut corners: Vec<Vec<u8>> = Vec::new();
    let mut changed: bool = false;
    let mut w: usize = 0;
    while w < words.len()
        invariant
            0 <= k < lines.len(),
            line@ == lines[k],
            contents(words@) == words_of(line@),
            reach.is_at(lines, k),
            w <= words@.len(),
            corners@.len() == w,
            forall|j: int|
                0 <= j < w ==> (#[trigger] corners@[j])@ == bounded_corner(
                    words_of(line@)[j],
                    lines,
                    k,
                ),
            changed == exists|j: int|
                0 <= j < w && !(corner_resolvable(
                    #[trigger] words_of(line@)[j],
                    lines,
                    k,
                    Attribute::Texcoord,
                ) && corner_resolvable(words_of(line@)[j], lines, k, Attribute::Normal)),
        decreases words@.len() - w,
    {
        assert(words@[w as int]@ == words_of(line@)[w as int]);
        let (corner, bad) = bound_corner(&words[w], reach, Ghost(lines), Ghost(k));
        corners.push(corner);
        changed = changed || bad;
        w = w + 1;
    }
    if !changed {
        proof {
            assert forall|j: int| 0 <= j < words_of(line@).len() implies corner_resolvable(
                #[trigger] words_of(line@)[j],
                lines,
                k,
                Attribute::Texcoord,
            ) && corner_resolvable(words_of(line@)[j], lines, k, Attribute::Normal) by {}
        }
        return None;
    }
    assert(contents(corners@) =~= bounded_words(lines, k));
    Some(join_bytes(&corners, 32))
}

/// OBJ data with far references in place of those that would lead out of the range of
/// `usize`. A reference that is merely out of bounds stays, and so does one to an attribute
/// of which nothing has been declared when its model ends.
pub fn bound_references(bytes: &[u8]) -> (r: Vec<u8>)
    ensures
        r@ == bounded(bytes@),
        references_resolvable(r@),
{
    let mut lines = split_bytes(bytes, Separator::Line);
    let ghost views = contents(lines@);
    let kinds = kinds_of(&lines);
    assert forall|i: int| 0 <= i < views.len() implies #[trigger] kinds@[i] == kind(views[i]) by {}
    let texcoords = counts_of(&kinds, Attribute::Texcoord, Ghost(views));
    let normals = counts_of(&kinds, Attribute::Normal, Ghost(views));
    let count: usize = lines.len();
    let mut end: usize = 0;
    let mut k: usize = 0;
    while k < count
        invariant
            views == split(bytes@, Separator::Line),
            count == lines@.len() == views.len() == kinds@.len(),
            forall|i: int| 0 <= i < views.len() ==> #[trigger] kinds@[i] == kind(views[i]),
            texcoords@.len() == count + 1,
            normals@.len() == count + 1,
            forall|n: int|
                0 <= n <= count ==> #[trigger] texcoords@[n] == declared(
                    views,
                    n,
                    Attribute::Texcoord,
                ),
            forall|n: int|
                0 <= n <= count ==> #[trigger] normals@[n] == declared(views, n, Attribute::Normal),
            k <= count,
            k != end && k < count ==> end == model_end(views, k as int) && end <= count,
            forall|j: int| 0 <= j < k ==> (#[trigger] lines@[j])@ == bounded_line(views, j),
            forall|j: int| k <= j < count ==> (#[trigger] lines@[j])@ == views[j],
        decreases count - k,
    {
        if k == end {
            end = find_model_end(&kinds, k, Ghost(views));
        }
        if kinds[k] == LineKind::Face {
            let reach = Reach {
                texcoords_matter: texcoords[end] > 0,
                texcoords: texcoords[k],
                normals_matter: normals[end] > 0,
                normals: normals[k],
            };
            match bound_line(&lines[k], reach, Ghost(views), Ghost(k as int)) {
                Some(text) => {
                    lines[k] = text;
                },
                None => {},
            }
        } else {
            assert(!is_face(views[k as int]));
        }
        k = k + 1;
    }
    assert(contents(lines@) =~= bounded_lines(views));
    proof {
        law_bounded_data_is_resolvable(bytes@);
    }
    join_bytes(&lines, 10)
}

/// References that data can have are resolvable: a number from the start of up to 2^28, and
/// one counted back by no more than there is.
pub proof fn law_ordinary_references_are_resolvable(n: nat, count: nat)
    ensures
        n <= 0x1000_0000 ==> resolvable(digits(n), count),
        n <= count ==> resolvable(seq![45u8] + digits(n), count),
        number(digits(n)) == n,
        digits_only(digits(n)),
{
    lemma_digits(n);
    let back = seq![45u8] + digits(n);
    assert(back.skip(1) =~= digits(n));
    assert(48 <= digits(n)[0] <= 57);
}

/// A model goes on to the next object or group behind the line, or to the end of the data.
pub proof fn law_model_end(lines: Seq<Seq<u8>>, k: int)
    requires
        0 <= k < lines.len(),
    ensures
        k < model_end(lines, k) <= lines.len(),
        model_end(lines, k) < lines.len() ==> kind(lines[model_end(lines, k)]) is ModelEnd,
        forall|i: int| k < i < model_end(lines, k) ==> !(kind(#[trigger] lines[i]) is ModelEnd),
    decreases lines.len() - k,
{
    if k + 1 < lines.len() && !(kind(lines[k + 1]) is ModelEnd) {
        law_model_end(lines, k + 1);
    }
}

/// References to an attribute matter in a line if and only if some line before the end of
/// its model declares one.
pub proof fn law_when_references_matter(lines: Seq<Seq<u8>>, k: int, attribute: Attribute)
    requires
        0 <= k < lines.len(),
    ensures
        matters(lines, k, attribute) <==> exists|i: int|
            0 <= i < model_end(lines, k) && kind(#[trigger] lines[i]) == match attribute {
                Attribute::Texcoord => LineKind::Texcoord,
                Attribute::Normal => LineKind::Normal,
            },
{
    law_model_end(lines, k);
    lemma_some_declared(lines, model_end(lines, k), attribute);
}

proof fn lemma_some_declared(lines: Seq<Seq<u8>>, n: int, attribute: Attribute)
    requires
        0 <= n <= lines.len(),
    ensures
        declared(lines, n, attribute) > 0 <==> exists|i: int|
            0 <= i < n && kind(#[trigger] lines[i]) == attribute.declared_by(),
    decreases n,
{
    if n > 0 {
        lemma_some_declared(lines, n - 1, attribute);
        if kind(lines[n - 1]) == attribute.declared_by() {
            assert(0 <= n - 1 < n && kind(lines[n - 1]) == attribute.declared_by());
        }
        if exists|i: int| 0 <= i < n - 1 && kind(#[trigger] lines[i]) == attribute.declared_by() {
            let i = choose|i: int|
                0 <= i < n - 1 && kind(#[trigger] lines[i]) == attribute.declared_by();
            assert(0 <= i < n && kind(lines[i]) == attribute.declared_by());
        }
    }
}

/// Lines stay in their places, and every line stays as it is but a face with a reference
/// that is not resolvable.
pub proof fn law_other_lines_stay(bytes: Seq<u8>, k: int)
    requires
        0 <= k < split(bytes, Separator::Line).len(),
    ensures
        split(bounded(bytes), Separator::Line).len() == split(bytes, Separator::Line).len(),
        line_resolvable(split(bytes, Separator::Line), k, Attribute::Texcoord) && line_resolvable(
            split(bytes, Separator::Line),
            k,
            Attribute::Normal,
        ) ==> split(bounded(bytes), Separator::Line)[k] == split(bytes, Separator::Line)[k],
        kind(split(bounded(bytes), Separator::Line)[k]) == kind(split(bytes, Separator::Line)[k]),
{
    let lines = split(bytes, Separator::Line);
    let kept = bounded_lines(lines);
    lemma_split_not_empty(bytes, Separator::Line);
    let any = |b: u8| true;
    assert(all_bytes(bytes, any));
    lemma_split_bytes(bytes, Separator::Line, any, whole(Separator::Line));
    assert forall|j: int| 0 <= j < lines.len() implies all_bytes(
        #[trigger] kept[j],
        whole(Separator::Line),
    ) && kind(kept[j]) == kind(lines[j]) by {
        assert(all_bytes(lines[j], whole(Separator::Line)));
        if kept[j] != lines[j] {
            lemma_bounded_words(lines, j);
        }
    }
    lemma_split_join(kept, 10, Separator::Line);
    assert(kind(kept[k]) == kind(lines[k]));
}

} // verus!
