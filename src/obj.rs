//! Reading the line structure of mesh text: vertex and face records.
use vstd::prelude::*;

verus! {

/// Whether `c` is white space: the characters of Unicode's White_Space property.
pub open spec fn is_space(c: char) -> bool {
    let u = c as u32;
    (0x09 <= u <= 0x0D) || u == 0x20 || u == 0x85 || u == 0xA0 || u == 0x1680
        || (0x2000 <= u <= 0x200A) || u == 0x2028 || u == 0x2029 || u == 0x202F
        || u == 0x205F || u == 0x3000
}

/// The text split at line breaks, each line split into its tokens: the maximal
/// runs of characters that are not white space.
pub open spec fn line_tokens(s: Seq<char>) -> Seq<Seq<Seq<char>>>
    decreases s.len(),
{
    if s.len() == 0 {
        seq![Seq::empty()]
    } else {
        let prev = line_tokens(s.drop_last());
        let c = s.last();
        let l = prev.len() - 1;
        if c == '\n' {
            prev.push(Seq::empty())
        } else if is_space(c) {
            prev
        } else if s.len() >= 2 && !is_space(s[s.len() - 2]) {
            let t = prev[l].len() - 1;
            prev.update(l, prev[l].update(t, prev[l][t].push(c)))
        } else {
            prev.update(l, prev[l].push(seq![c]))
        }
    }
}

/// The tokens of a line as character sequences.
pub open spec fn tokens_view(v: Seq<Vec<char>>) -> Seq<Seq<char>> {
    v.map_values(|t: Vec<char>| t@)
}

/// Lines of tokens as nested sequences.
pub open spec fn lines_view(v: Seq<Vec<Vec<char>>>) -> Seq<Seq<Seq<char>>> {
    v.map_values(|l: Vec<Vec<char>>| tokens_view(l@))
}

/// Whether `c` is white space.
fn space(c: char) -> (r: bool)
    ensures
        r == is_space(c),
{
    let u: u32 = c as u32;
    (0x09 <= u && u <= 0x0D) || u == 0x20 || u == 0x85 || u == 0xA0 || u == 0x1680
        || (0x2000 <= u && u <= 0x200A) || u == 0x2028 || u == 0x2029 || u == 0x202F
        || u == 0x205F || u == 0x3000
}

/// Splits the text into lines of tokens.
pub fn split_lines(text: &Vec<char>) -> (r: Vec<Vec<Vec<char>>>)
    ensures
        lines_view(r@) == line_tokens(text@),
{
    let mut lines: Vec<Vec<Vec<char>>> = Vec::new();
    let first: Vec<Vec<char>> = Vec::new();
    assert(tokens_view(first@) =~= Seq::empty());
    lines.push(first);
    assert(lines_view(lines@) =~= line_tokens(text@.take(0)));
    let mut i: usize = 0;
    while i < text.len()
        invariant
            i <= text.len(),
            lines@.len() > 0,
            i > 0 && !is_space(text@[i - 1]) ==> lines@.last()@.len() > 0,
            lines_view(lines@) == line_tokens(text@.take(i as int)),
        decreases text.len() - i,
    {
        let c: char = text[i];
        let ghost prev = lines_view(lines@);
        let ghost s = text@.take(i + 1);
        assert(s.drop_last() =~= text@.take(i as int));
        if c == '\n' {
            let fresh: Vec<Vec<char>> = Vec::new();
            assert(tokens_view(fresh@) =~= Seq::empty());
            lines.push(fresh);
            assert(lines_view(lines@) =~= prev.push(Seq::empty()));
        } else if space(c) {
        } else if i >= 1 && !space(text[i - 1]) {
            let mut line: Vec<Vec<char>> = lines.pop().unwrap();
            let mut tok: Vec<char> = line.pop().unwrap();
            tok.push(c);
            line.push(tok);
            lines.push(line);
            let ghost l = prev.len() - 1;
            let ghost t = prev[l].len() - 1;
            assert(tokens_view(line@) =~= prev[l].update(t, prev[l][t].push(c)));
            assert(lines_view(lines@) =~= prev.update(l, prev[l].update(t, prev[l][t].push(c))));
        } else {
            let mut line: Vec<Vec<char>> = lines.pop().unwrap();
            let mut tok: Vec<char> = Vec::new();
            tok.push(c);
            line.push(tok);
            lines.push(line);
            let ghost l = prev.len() - 1;
            assert(tok@ =~= seq![c]);
            assert(tokens_view(line@) =~= prev[l].push(seq![c]));
            assert(lines_view(lines@) =~= prev.update(l, prev[l].push(seq![c])));
        }
        i = i + 1;
    }
    assert(text@.take(text@.len() as int) =~= text@);
    lines
}

/// Whether `c` is an ASCII decimal digit.
pub open spec fn is_digit(c: char) -> bool {
    0x30 <= (c as u32) <= 0x39
}

/// The value of a run of decimal digits, most significant first.
pub open spec fn digits_value(d: Seq<char>) -> int
    decreases d.len(),
{
    if d.len() == 0 {
        0
    } else {
        digits_value(d.drop_last()) * 10 + ((d.last() as u32) - 0x30)
    }
}

/// The digits of an unsigned decimal: the token without one leading `+`.
pub open spec fn unsigned_digits(t: Seq<char>) -> Seq<char> {
    if t.len() > 0 && t[0] == '+' {
        t.drop_first()
    } else {
        t
    }
}

/// The token read as an unsigned decimal that fits a `usize`, if it is one.
pub open spec fn index_value(t: Seq<char>) -> Option<usize> {
    let d = unsigned_digits(t);
    if d.len() > 0 && (forall|i: int| 0 <= i < d.len() ==> is_digit(#[trigger] d[i]))
        && digits_value(d) <= usize::MAX {
        Some(digits_value(d) as usize)
    } else {
        None
    }
}

/// A prefix of a run of digits is worth no more than the whole run.
proof fn lemma_digits_prefix(d: Seq<char>, k: int)
    requires
        0 <= k <= d.len(),
        forall|i: int| 0 <= i < d.len() ==> is_digit(#[trigger] d[i]),
    ensures
        0 <= digits_value(d.take(k)) <= digits_value(d),
    decreases d.len(),
{
    if d.len() > 0 {
        assert(is_digit(d[d.len() - 1]));
        if k == d.len() {
            assert(d.take(k) =~= d);
            lemma_digits_prefix(d.drop_last(), k - 1);
            assert(d.drop_last().take(k - 1) =~= d.drop_last());
        } else {
            lemma_digits_prefix(d.drop_last(), k);
            assert(d.drop_last().take(k) =~= d.take(k));
        }
    }
}

/// Reads a token as an unsigned decimal vertex reference, optionally preceded
/// by `+`; `None` when it is empty, holds another character, or does not fit.
pub fn parse_index(token: &Vec<char>) -> (r: Option<usize>)
    ensures
        r == index_value(token@),
{
    let ghost d = unsigned_digits(token@);
    let start: usize = if token.len() > 0 && token[0] == '+' { 1 } else { 0 };
    assert(d =~= token@.skip(start as int));
    if start >= token.len() {
        return None;
    }
    let mut value: usize = 0;
    let mut k: usize = start;
    while k < token.len()
        invariant
            start <= k <= token.len(),
            d == unsigned_digits(token@),
            d =~= token@.skip(start as int),
            forall|i: int| 0 <= i < k - start ==> is_digit(#[trigger] d[i]),
            value == digits_value(d.take(k - start)),
        decreases token.len() - k,
    {
        let c: char = token[k];
        if !((c as u32) >= 0x30 && (c as u32) <= 0x39) {
            assert(d[k - start] == c);
            assert(!is_digit(d[k - start]));
            assert(!(forall|i: int| 0 <= i < d.len() ==> is_digit(#[trigger] d[i])));
            return None;
        }
        let next: u128 = value as u128 * 10 + ((c as u32) - 0x30) as u128;
        assert(d[k - start] == c);
        assert(d.take(k - start + 1).drop_last() =~= d.take(k - start));
        assert(d.take(k - start + 1).last() == c);
        if next > usize::MAX as u128 {
            proof {
                if forall|i: int| 0 <= i < d.len() ==> is_digit(#[trigger] d[i]) {
                    lemma_digits_prefix(d, k - start + 1);
                }
            }
            return None;
        }
        value = next as usize;
        k = k + 1;
    }
    assert(d.take(k - start) =~= d);
    Some(value)
}

/// Whether a line's tokens form a record of the given kind: its first token is
/// that one character.
pub open spec fn is_record(toks: Seq<Seq<char>>, kind: char) -> bool {
    toks.len() > 0 && toks[0] == seq![kind]
}

/// The lines that are records of the given kind, in line order.
pub open spec fn record_lines(lines: Seq<Seq<Seq<char>>>, kind: char) -> Seq<Seq<Seq<char>>> {
    lines.filter(|t: Seq<Seq<char>>| is_record(t, kind))
}

/// The records of the given kind, in line order, each without its leading token.
pub open spec fn records(lines: Seq<Seq<Seq<char>>>, kind: char) -> Seq<Seq<Seq<char>>> {
    record_lines(lines, kind).map_values(|t: Seq<Seq<char>>| t.drop_first())
}

/// The records among the first `k` lines come first among all records.
proof fn lemma_record_prefix(lines: Seq<Seq<Seq<char>>>, kind: char, k: int)
    requires
        0 <= k <= lines.len(),
    ensures
        record_lines(lines.take(k), kind).len() <= record_lines(lines, kind).len(),
        forall|m: int| 0 <= m < record_lines(lines.take(k), kind).len()
            ==> record_lines(lines, kind)[m] == #[trigger] record_lines(lines.take(k), kind)[m],
    decreases lines.len(),
{
    reveal(Seq::filter);
    if k == lines.len() {
        assert(lines.take(k) =~= lines);
    } else {
        lemma_record_prefix(lines.drop_last(), kind, k);
        assert(lines.drop_last().take(k) =~= lines.take(k));
    }
}

/// Whether every token of every face record reads as a vertex reference.
pub open spec fn faces_valid(faces: Seq<Seq<Seq<char>>>) -> bool {
    forall|i: int, j: int| 0 <= i < faces.len() && 0 <= j < faces[i].len()
        ==> (#[trigger] index_value(faces[i][j])).is_some()
}

/// The vertex references of the face records.
pub open spec fn face_values(faces: Seq<Seq<Seq<char>>>) -> Seq<Seq<usize>> {
    faces.map_values(|f: Seq<Seq<char>>| f.map_values(|t: Seq<char>| index_value(t).unwrap()))
}

/// Faces as sequences of vertex references.
pub open spec fn faces_view(faces: Seq<Vec<usize>>) -> Seq<Seq<usize>> {
    faces.map_values(|f: Vec<usize>| f@)
}

/// A mesh as read from text: each vertex as the tokens of its coordinates,
/// each face as its 1-based vertex references.
#[derive(Debug)]
pub struct Obj {
    pub vertices: Vec<Vec<Vec<char>>>,
    pub faces: Vec<Vec<usize>>,
}

/// A face record holds a token that is not a vertex reference.
#[derive(Clone, Copy, Debug, PartialEq, Eq)]
pub struct ParseError;

/// Whether the line is a record of the given kind.
fn record_of_kind(line: &Vec<Vec<char>>, kind: char) -> (b: bool)
    ensures
        b == is_record(tokens_view(line@), kind),
{
    if line.len() > 0 && line[0].len() == 1 && line[0][0] == kind {
        assert(tokens_view(line@)[0] =~= seq![kind]);
        true
    } else {
        false
    }
}

/// A copy of a token.
fn copy_token(t: &Vec<char>) -> (r: Vec<char>)
    ensures
        r@ == t@,
{
    let mut r: Vec<char> = Vec::new();
    let mut i: usize = 0;
    while i < t.len()
        invariant
            i <= t.len(),
            r@ == t@.take(i as int),
        decreases t.len() - i,
    {
        r.push(t[i]);
        i = i + 1;
        assert(r@ =~= t@.take(i as int));
    }
    assert(t@.take(i as int) =~= t@);
    r
}

/// The coordinate tokens of a vertex line: every token after the first.
fn vertex_record(line: &Vec<Vec<char>>) -> (r: Vec<Vec<char>>)
    requires
        line@.len() > 0,
    ensures
        tokens_view(r@) == tokens_view(line@).drop_first(),
{
    let ghost toks = tokens_view(line@);
    let mut record: Vec<Vec<char>> = Vec::new();
    let mut j: usize = 1;
    while j < line.len()
        invariant
            1 <= j <= line@.len(),
            toks == tokens_view(line@),
            tokens_view(record@) == toks.subrange(1, j as int),
        decreases line.len() - j,
    {
        let ghost before = tokens_view(record@);
        let tok: Vec<char> = copy_token(&line[j]);
        assert(tok@ == toks[j as int]);
        record.push(tok);
        assert(tokens_view(record@) =~= before.push(toks[j as int]));
        j = j + 1;
        assert(tokens_view(record@) =~= toks.subrange(1, j as int));
    }
    assert(toks.subrange(1, j as int) =~= toks.drop_first());
    record
}

/// The vertex references of a face line, or the position of the first token
/// after the leading one that is not a reference.
fn face_record(line: &Vec<Vec<char>>) -> (r: Result<Vec<usize>, usize>)
    requires
        line@.len() > 0,
    ensures
        r matches Ok(face) ==> face@ == tokens_view(line@).drop_first().map_values(
            |t: Seq<char>| index_value(t).unwrap(),
        ) && forall|k: int| 0 <= k < line@.len() - 1
            ==> (#[trigger] index_value(tokens_view(line@).drop_first()[k])).is_some(),
        r matches Err(k) ==> 0 <= k < line@.len() - 1 && index_value(
            tokens_view(line@).drop_first()[k as int],
        ).is_none(),
{
    let ghost toks = tokens_view(line@);
    let ghost rest = toks.drop_first();
    let mut face: Vec<usize> = Vec::new();
    let mut j: usize = 1;
    while j < line.len()
        invariant
            1 <= j <= line@.len(),
            toks == tokens_view(line@),
            rest == toks.drop_first(),
            forall|k: int| 0 <= k < j - 1 ==> (#[trigger] index_value(rest[k])).is_some(),
            face@ == rest.take(j - 1).map_values(|t: Seq<char>| index_value(t).unwrap()),
        decreases line.len() - j,
    {
        assert(line@[j as int]@ == rest[j - 1]);
        match parse_index(&line[j]) {
            Some(v) => {
                face.push(v);
            },
            None => {
                return Err(j - 1);
            },
        }
        j = j + 1;
        assert(face@ =~= rest.take(j - 1).map_values(|t: Seq<char>| index_value(t).unwrap()));
    }
    assert(rest.take(j - 1) =~= rest);
    Ok(face)
}

/// Reads mesh text: `v` lines give vertices, `f` lines give faces, both in line
/// order; other lines are ignored. Fails when a face token is not an unsigned
/// decimal that fits a `usize`.
pub fn parse_obj(text: &Vec<char>) -> (r: Result<Obj, ParseError>)
    ensures
        r is Ok <==> faces_valid(records(line_tokens(text@), 'f')),
        r matches Ok(obj) ==> obj.vertices@.len() == record_lines(line_tokens(text@), 'v').len(),
        r matches Ok(obj) ==> lines_view(obj.vertices@) == records(line_tokens(text@), 'v')
            && faces_view(obj.faces@) == face_values(records(line_tokens(text@), 'f')),
{
    let lines = split_lines(text);
    let ghost ls = line_tokens(text@);
    let mut vertices: Vec<Vec<Vec<char>>> = Vec::new();
    let mut faces: Vec<Vec<usize>> = Vec::new();
    let mut i: usize = 0;
    proof {
        reveal(Seq::filter);
        assert(ls.take(0) =~= Seq::<Seq<Seq<char>>>::empty());
        assert(lines_view(vertices@) =~= records(ls.take(0), 'v'));
        assert(faces_view(faces@) =~= face_values(records(ls.take(0), 'f')));
    }
    while i < lines.len()
        invariant
            i <= lines.len(),
            ls == line_tokens(text@),
            lines_view(lines@) == ls,
            lines@.len() == ls.len(),
            lines_view(vertices@) == records(ls.take(i as int), 'v'),
            faces_view(faces@) == face_values(records(ls.take(i as int), 'f')),
            faces_valid(records(ls.take(i as int), 'f')),
        decreases lines.len() - i,
    {
        let line: &Vec<Vec<char>> = &lines[i];
        let ghost toks = ls[i as int];
        let ghost next = ls.take(i + 1);
        proof {
            reveal(Seq::filter);
            assert(tokens_view(line@) == toks);
            assert(next.drop_last() =~= ls.take(i as int));
            assert(next.last() == toks);
        }
        let ghost (vs0, fs0) = (lines_view(vertices@), faces_view(faces@));
        if record_of_kind(line, 'v') {
            let record = vertex_record(line);
            vertices.push(record);
            assert(toks[0][0] == 'v');
            assert(record_lines(next, 'f') == record_lines(ls.take(i as int), 'f'));
            assert(record_lines(next, 'v') == record_lines(ls.take(i as int), 'v').push(toks));
            assert(records(next, 'v') =~= records(ls.take(i as int), 'v').push(toks.drop_first()));
            assert(lines_view(vertices@) =~= vs0.push(tokens_view(record@)));
        } else if record_of_kind(line, 'f') {
            assert(record_lines(next, 'f') == record_lines(ls.take(i as int), 'f').push(toks));
            match face_record(line) {
                Ok(face) => {
                    faces.push(face);
                    assert(records(next, 'f') =~= records(ls.take(i as int), 'f').push(toks.drop_first()));
                    assert(faces_view(faces@) =~= fs0.push(face@));
                    assert(faces_view(faces@) =~= face_values(records(next, 'f')));
                    assert(faces_valid(records(next, 'f')));
                },
                Err(k) => {
                    proof {
                        let m = record_lines(ls.take(i as int), 'f').len() as int;
                        lemma_record_prefix(ls, 'f', i + 1);
                        assert(record_lines(next, 'f')[m] == toks);
                        assert(records(ls, 'f')[m] == toks.drop_first());
                        assert(index_value(records(ls, 'f')[m][k as int]).is_none());
                    }
                    return Err(ParseError);
                },
            }
        } else {
            assert(lines_view(vertices@) =~= records(next, 'v'));
            assert(faces_view(faces@) =~= face_values(records(next, 'f')));
        }
        i = i + 1;
    }
    assert(ls.take(lines@.len() as int) =~= ls);
    Ok(Obj { vertices, faces })
}

} // verus!
