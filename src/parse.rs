//! Parsing a secret's text: the first line is the password, the lines after
//! it are `name: value` fields, up to a line `---`.

use vstd::prelude::*;
use vstd::string::*;
use vstd::utf8::{
    char_is_scalar, decode_utf8, encode_scalar, encode_utf8, encode_utf8_decode_utf8,
    encode_utf8_valid_utf8, has_width_1_encoding, has_width_2_encoding, has_width_3_encoding,
    valid_utf8,
};

use crate::secrets::{password_key, same_text, Secrets};

verus! {

/// Whether `c` is white space in Unicode's sense (`char::is_whitespace`).
pub open spec fn is_white_space(c: char) -> bool {
    let u = c as u32;
    (0x09 <= u <= 0x0d) || u == 0x20 || u == 0x85 || u == 0xa0 || u == 0x1680 || (0x2000 <= u
        <= 0x200a) || u == 0x2028 || u == 0x2029 || u == 0x202f || u == 0x205f || u == 0x3000
}

/// `s` without its leading white space.
pub open spec fn trim_start(s: Seq<char>) -> Seq<char>
    decreases s.len(),
{
    if s.len() > 0 && is_white_space(s[0]) {
        trim_start(s.drop_first())
    } else {
        s
    }
}

/// `i` is the position of the first colon in `line`.
pub open spec fn is_first_colon(line: Seq<char>, i: int) -> bool {
    &&& 0 <= i < line.len()
    &&& line[i] == ':'
    &&& forall|j: int| 0 <= j < i ==> line[j] != ':'
}

/// The field that a line names: the text before its first colon, and the
/// text after it without leading white space. A line with no colon names
/// none.
pub open spec fn field_of(line: Seq<char>) -> Option<(Seq<char>, Seq<char>)> {
    if exists|i: int| is_first_colon(line, i) {
        let i = choose|i: int| is_first_colon(line, i);
        Some((line.subrange(0, i), trim_start(line.subrange(i + 1, line.len() as int))))
    } else {
        None
    }
}

/// The line that ends the fields.
pub open spec fn sentinel() -> Seq<char> {
    seq!['-', '-', '-']
}

/// Whether one of the lines is the sentinel.
pub open spec fn has_sentinel(lines: Seq<Option<Seq<char>>>) -> bool {
    exists|i: int| 0 <= i < lines.len() && lines[i] == Some(sentinel())
}

/// The lines before the first sentinel.
pub open spec fn body(lines: Seq<Option<Seq<char>>>) -> Seq<Option<Seq<char>>>
    decreases lines.len(),
{
    if lines.len() == 0 || lines[0] == Some(sentinel()) {
        Seq::empty()
    } else {
        seq![lines[0]] + body(lines.drop_first())
    }
}

/// The fields that lines name, a later line overriding an earlier one of the
/// same name; a line that could not be read names none.
pub open spec fn fields_of(lines: Seq<Option<Seq<char>>>) -> Map<Seq<char>, Seq<char>>
    decreases lines.len(),
{
    if lines.len() == 0 {
        Map::empty()
    } else {
        let m = fields_of(lines.drop_last());
        match lines.last() {
            Some(line) => match field_of(line) {
                Some(f) => m.insert(f.0, f.1),
                None => m,
            },
            None => m,
        }
    }
}

/// The password that a first line gives: the line itself, unless it is
/// empty or could not be read.
pub open spec fn password_of(first: Option<Seq<char>>) -> Option<Seq<char>> {
    match first {
        Some(p) => if p.len() > 0 {
            Some(p)
        } else {
            None
        },
        None => None,
    }
}

/// The record that a secret's lines describe (`None` for a line that could
/// not be read): the fields of the lines after the first, up to the first
/// sentinel, and the password of the first line, which no field overrides.
pub open spec fn record_of(lines: Seq<Option<Seq<char>>>) -> Map<Seq<char>, Seq<char>> {
    if lines.len() == 0 {
        Map::empty()
    } else {
        let fields = fields_of(body(lines.drop_first()));
        match password_of(lines[0]) {
            Some(p) => fields.insert(password_key(), p),
            None => fields,
        }
    }
}

/// The text of an optional string.
pub open spec fn opt_view(s: Option<String>) -> Option<Seq<char>> {
    match s {
        Some(t) => Some(t@),
        None => None,
    }
}

/// How `body` grows by one line.
pub proof fn lemma_body_push(lines: Seq<Option<Seq<char>>>, x: Option<Seq<char>>)
    ensures
        !has_sentinel(lines) ==> body(lines) == lines,
        body(lines.push(x)) == (if has_sentinel(lines) {
            body(lines)
        } else if x == Some(sentinel()) {
            lines
        } else {
            lines.push(x)
        }),
    decreases lines.len(),
{
    if lines.len() == 0 {
        assert(lines.push(x).drop_first() =~= Seq::<Option<Seq<char>>>::empty());
        assert(seq![x] + Seq::<Option<Seq<char>>>::empty() =~= lines.push(x));
    } else {
        let rest = lines.drop_first();
        assert(lines.push(x).drop_first() =~= rest.push(x));
        assert(lines.push(x)[0] == lines[0]);
        if lines[0] == Some(sentinel()) {
            assert(has_sentinel(lines));
        } else {
            lemma_body_push(rest, x);
            assert(has_sentinel(lines) == has_sentinel(rest)) by {
                if has_sentinel(lines) {
                    let i = choose|i: int| 0 <= i < lines.len() && lines[i] == Some(sentinel());
                    assert(rest[i - 1] == Some(sentinel()));
                }
                if has_sentinel(rest) {
                    let i = choose|i: int| 0 <= i < rest.len() && rest[i] == Some(sentinel());
                    assert(lines[i + 1] == Some(sentinel()));
                }
            }
            assert(seq![lines[0]] + rest =~= lines);
            assert(seq![lines[0]] + rest.push(x) =~= lines.push(x));
        }
    }
}

/// Trimming a text from `a` gives its part from the first position `j`
/// at or after `a` that is not white space.
proof fn lemma_trim_start_at(s: Seq<char>, a: int, j: int)
    requires
        0 <= a <= j <= s.len(),
        forall|k: int| a <= k < j ==> is_white_space(s[k]),
        j == s.len() || !is_white_space(s[j]),
    ensures
        trim_start(s.subrange(a, s.len() as int)) == s.subrange(j, s.len() as int),
    decreases j - a,
{
    if a < j {
        assert(s.subrange(a, s.len() as int).drop_first() =~= s.subrange(a + 1, s.len() as int));
        lemma_trim_start_at(s, a + 1, j);
    }
}

/// Whether `c` is white space; see `is_white_space`.
pub fn white_space(c: char) -> (r: bool)
    ensures
        r == is_white_space(c),
{
    let u = c as u32;
    (0x09 <= u && u <= 0x0d) || u == 0x20 || u == 0x85 || u == 0xa0 || u == 0x1680 || (0x2000
        <= u && u <= 0x200a) || u == 0x2028 || u == 0x2029 || u == 0x202f || u == 0x205f || u
        == 0x3000
}

/// The field that one line names, as `field_of` describes it.
pub fn field_of_line(line: &str) -> (r: Option<(String, String)>)
    ensures
        match r {
            Some(f) => field_of(line@) == Some((f.0@, f.1@)),
            None => field_of(line@) is None,
        },
{
    let n = line.unicode_len();
    let mut i: usize = 0;
    while i < n && line.get_char(i) != ':'
        invariant
            n == line@.len(),
            0 <= i <= n,
            forall|j: int| 0 <= j < i ==> line@[j] != ':',
        decreases n - i,
    {
        i = i + 1;
    }
    if i == n {
        assert(!exists|k: int| is_first_colon(line@, k));
        return None;
    }
    assert(is_first_colon(line@, i as int));
    let ghost c = choose|k: int| is_first_colon(line@, k);
    assert(c == i as int) by {
        if c < i {
        } else if c > i {
            assert(line@[i as int] != ':');
        }
    }
    let mut j: usize = i + 1;
    while j < n && white_space(line.get_char(j))
        invariant
            n == line@.len(),
            i < j <= n,
            forall|k: int| i + 1 <= k < j ==> is_white_space(line@[k]),
        decreases n - j,
    {
        j = j + 1;
    }
    proof {
        lemma_trim_start_at(line@, i + 1, j as int);
    }
    let id = String::from_str(line.substring_char(0, i));
    let value = String::from_str(line.substring_char(j, n));
    Some((id, value))
}

/// Whether `line` is the sentinel that ends the fields.
pub fn is_sentinel(line: &str) -> (r: bool)
    ensures
        r == (line@ == sentinel()),
{
    proof {
        reveal_strlit("---");
    }
    let r = same_text(line, "---");
    assert("---"@ =~= sentinel());
    r
}

/// Reads a secret line by line, as a child process's output comes in.
pub struct LineParser {
    started: bool,
    stopped: bool,
    password: Option<String>,
    fields: Secrets,
    lines: Ghost<Seq<Option<Seq<char>>>>,
}

impl View for LineParser {
    type V = Seq<Option<Seq<char>>>;

    /// The lines read so far; `None` stands for a line that could not be
    /// read as text.
    closed spec fn view(&self) -> Seq<Option<Seq<char>>> {
        self.lines@
    }
}

impl LineParser {
    /// The parser's state agrees with the lines read so far.
    pub closed spec fn wf(&self) -> bool {
        let lines = self.lines@;
        &&& self.started == (lines.len() > 0)
        &&& if lines.len() == 0 {
            &&& self.password is None
            &&& !self.stopped
            &&& self.fields@ == Map::<Seq<char>, Seq<char>>::empty()
        } else {
            &&& opt_view(self.password) == password_of(lines[0])
            &&& self.stopped == has_sentinel(lines.drop_first())
            &&& self.fields@ == fields_of(body(lines.drop_first()))
        }
    }

    /// A parser that has read nothing.
    pub fn new() -> (r: LineParser)
        ensures
            r.wf(),
            r@ == Seq::<Option<Seq<char>>>::empty(),
    {
        LineParser {
            started: false,
            stopped: false,
            password: None,
            fields: Secrets::empty(),
            lines: Ghost(Seq::empty()),
        }
    }

    /// Reads one more line, given without its line ending, or `None` for a
    /// line that could not be read as text.
    pub fn push_line(&mut self, line: Option<String>)
        requires
            old(self).wf(),
        ensures
            final(self).wf(),
            final(self)@ == old(self)@.push(opt_view(line)),
    {
        let ghost x = opt_view(line);
        let ghost before = self.lines@;
        if !self.started {
            self.started = true;
            match line {
                Some(l) => {
                    if !l.as_str().is_empty() {
                        self.password = Some(l);
                    }
                },
                None => {},
            }
            self.lines = Ghost(before.push(x));
            assert(self.lines@.drop_first() =~= Seq::<Option<Seq<char>>>::empty());
            assert(fields_of(body(self.lines@.drop_first())) =~= Map::<
                Seq<char>,
                Seq<char>,
            >::empty());
        } else {
            let ghost rest = before.drop_first();
            assert(before.push(x).drop_first() =~= rest.push(x));
            proof {
                lemma_body_push(rest, x);
            }
            assert(has_sentinel(rest.push(x)) == (has_sentinel(rest) || x == Some(sentinel())))
                by {
                if has_sentinel(rest) {
                    let i = choose|i: int| 0 <= i < rest.len() && rest[i] == Some(sentinel());
                    assert(rest.push(x)[i] == Some(sentinel()));
                }
                if x == Some(sentinel()) {
                    assert(rest.push(x)[rest.len() as int] == Some(sentinel()));
                }
                if has_sentinel(rest.push(x)) {
                    let i = choose|i: int|
                        0 <= i < rest.push(x).len() && rest.push(x)[i] == Some(sentinel());
                    if i < rest.len() {
                        assert(rest[i] == Some(sentinel()));
                    }
                }
            }
            if !self.stopped {
                assert(rest.push(x).drop_last() =~= rest);
                match line {
                    Some(l) => {
                        if is_sentinel(l.as_str()) {
                            self.stopped = true;
                        } else {
                            match field_of_line(l.as_str()) {
                                Some(f) => {
                                    self.fields.insert(f.0, f.1);
                                },
                                None => {},
                            }
                        }
                    },
                    None => {},
                }
            }
            self.lines = Ghost(before.push(x));
        }
    }

    /// The record that the lines read so far describe.
    pub fn finish(self) -> (r: Secrets)
        requires
            self.wf(),
        ensures
            r@ == record_of(self@),
    {
        let mut fields = self.fields;
        match self.password {
            Some(p) => {
                proof {
                    reveal_strlit("password");
                }
                let name = String::from_str("password");
                assert(name@ =~= password_key());
                fields.insert(name, p);
            },
            None => {},
        }
        fields
    }

    /// The record that the lines read so far describe, or `None` where no
    /// line was read at all.
    pub fn finish_output(self) -> (r: Option<Secrets>)
        requires
            self.wf(),
        ensures
            r is Some <==> self@.len() > 0,
            r matches Some(s) ==> s@ == record_of(self@),
    {
        if self.started {
            Some(self.finish())
        } else {
            None
        }
    }
}

/// The pieces of `b` between line feeds.
pub open spec fn pieces(b: Seq<u8>) -> Seq<Seq<u8>>
    decreases b.len(),
{
    if b.len() == 0 {
        seq![Seq::empty()]
    } else {
        let p = pieces(b.drop_last());
        if b.last() == 10 {
            p.push(Seq::empty())
        } else {
            p.update(p.len() - 1, p.last().push(b.last()))
        }
    }
}

/// A line without the carriage return that ended it, if any.
pub open spec fn strip_cr(l: Seq<u8>) -> Seq<u8> {
    if l.len() > 0 && l.last() == 13 {
        l.drop_last()
    } else {
        l
    }
}

/// The lines of `b`: each piece ended by a line feed, without a carriage
/// return before it, and the last piece if it is not empty.
pub open spec fn byte_lines(b: Seq<u8>) -> Seq<Seq<u8>> {
    let p = pieces(b);
    let ended = p.drop_last().map_values(|l: Seq<u8>| strip_cr(l));
    if p.last().len() == 0 {
        ended
    } else {
        ended.push(p.last())
    }
}

/// The text of a line, or `None` where it is not UTF-8.
pub open spec fn decode_line(l: Seq<u8>) -> Option<Seq<char>> {
    if valid_utf8(l) {
        Some(decode_utf8(l))
    } else {
        None
    }
}

/// The lines of `b` as text.
pub open spec fn text_lines(b: Seq<u8>) -> Seq<Option<Seq<char>>> {
    byte_lines(b).map_values(|l: Seq<u8>| decode_line(l))
}

proof fn lemma_pieces_nonempty(b: Seq<u8>)
    ensures
        pieces(b).len() >= 1,
    decreases b.len(),
{
    if b.len() > 0 {
        lemma_pieces_nonempty(b.drop_last());
    }
}

/// Relies on `String::from_utf8`: it accepts exactly the UTF-8 byte strings,
/// and the string it gives holds the characters they encode.
#[verifier::external_body]
fn text_of_bytes(bytes: Vec<u8>) -> (r: Option<String>)
    ensures
        r is Some <==> valid_utf8(bytes@),
        r matches Some(s) ==> s@ == decode_utf8(bytes@),
{
    String::from_utf8(bytes).ok()
}

impl Secrets {
    /// Parses a secret's text as `record_of` describes it, line by line;
    /// a line that is not UTF-8 is skipped.
    pub fn parse(input: &[u8]) -> (r: Secrets)
        ensures
            r@ == record_of(text_lines(input@)),
    {
        let mut parser = LineParser::new();
        let mut line: Vec<u8> = Vec::new();
        let mut i: usize = 0;
        while i < input.len()
            invariant
                0 <= i <= input.len(),
                parser.wf(),
                pieces(input@.subrange(0, i as int)).last() == line@,
                parser@ == pieces(input@.subrange(0, i as int)).drop_last().map_values(
                    |l: Seq<u8>| decode_line(strip_cr(l)),
                ),
            decreases input.len() - i,
        {
            let ghost ps = pieces(input@.subrange(0, i as int));
            proof {
                lemma_pieces_nonempty(input@.subrange(0, i as int));
            }
            let b = input[i];
            assert(input@.subrange(0, i + 1).drop_last() =~= input@.subrange(0, i as int));
            if b == 10 {
                let mut ended = Vec::new();
                std::mem::swap(&mut ended, &mut line);
                if ended.len() > 0 && ended[ended.len() - 1] == 13 {
                    ended.pop();
                }
                assert(ended@ == strip_cr(ps.last()));
                let text = text_of_bytes(ended);
                parser.push_line(text);
                let ghost ps2 = pieces(input@.subrange(0, i + 1));
                assert(ps2 == ps.push(Seq::<u8>::empty()));
                assert(ps2.drop_last() =~= ps);
                assert(parser@ =~= ps2.drop_last().map_values(
                    |l: Seq<u8>| decode_line(strip_cr(l)),
                ));
            } else {
                line.push(b);
                let ghost ps2 = pieces(input@.subrange(0, i + 1));
                assert(ps2 == ps.update(ps.len() - 1, ps.last().push(b)));
                assert(ps2.drop_last() =~= ps.drop_last());
            }
            i = i + 1;
        }
        assert(input@.subrange(0, i as int) =~= input@);
        let ghost ps = pieces(input@);
        proof {
            lemma_pieces_nonempty(input@);
        }
        let ghost ended = ps.drop_last().map_values(|l: Seq<u8>| strip_cr(l));
        assert(parser@ =~= ended.map_values(|l: Seq<u8>| decode_line(l)));
        if line.len() > 0 {
            let ghost last = line@;
            let text = text_of_bytes(line);
            parser.push_line(text);
            assert(parser@ =~= ended.push(last).map_values(|l: Seq<u8>| decode_line(l)));
        }
        parser.finish()
    }
}

/// Whether a line names the field `k`.
pub open spec fn names(line: Option<Seq<char>>, k: Seq<char>) -> bool {
    line matches Some(l) && field_of(l) matches Some(f) && f.0 == k
}

/// The last line that names a field gives its value.
pub proof fn lemma_fields_of_last(lines: Seq<Option<Seq<char>>>, i: int, k: Seq<char>, v: Seq<char>)
    requires
        0 <= i < lines.len(),
        lines[i] matches Some(l) && field_of(l) == Some((k, v)),
        forall|j: int| i < j < lines.len() ==> !names(#[trigger] lines[j], k),
    ensures
        fields_of(lines).contains_key(k),
        fields_of(lines)[k] == v,
    decreases lines.len(),
{
    if i < lines.len() - 1 {
        let init = lines.drop_last();
        assert(init[i] == lines[i]);
        assert forall|j: int| i < j < init.len() implies !names(#[trigger] init[j], k) by {
            assert(init[j] == lines[j]);
        }
        lemma_fields_of_last(init, i, k, v);
        assert(!names(lines[lines.len() - 1], k));
    }
}

/// The lines before a sentinel are all that count of what follows the first.
proof fn lemma_body_sentinel(
    a: Seq<Option<Seq<char>>>,
    c: Seq<Option<Seq<char>>>,
)
    ensures
        body(a + seq![Some(sentinel())] + c) == body(a),
    decreases a.len(),
{
    let whole = a + seq![Some(sentinel())] + c;
    if a.len() == 0 {
        assert(whole[0] == Some(sentinel()));
    } else {
        assert(whole[0] == a[0]);
        assert(whole.drop_first() =~= a.drop_first() + seq![Some(sentinel())] + c);
        lemma_body_sentinel(a.drop_first(), c);
    }
}

/// A line of text with no colon before the one that follows a name names
/// that field, with the value's leading white space removed.
pub proof fn lemma_field_line(id: Seq<char>, value: Seq<char>)
    requires
        forall|j: int| 0 <= j < id.len() ==> id[j] != ':',
    ensures
        field_of(id + seq![':'] + value) == Some((id, trim_start(value))),
{
    let line = id + seq![':'] + value;
    let n = id.len() as int;
    assert(is_first_colon(line, n));
    let c = choose|k: int| is_first_colon(line, k);
    assert(c == n) by {
        if c < n {
            assert(line[c] == id[c]);
        } else if c > n {
            assert(line[n] != ':');
        }
    }
    assert(line.subrange(0, n) =~= id);
    assert(line.subrange(n + 1, line.len() as int) =~= value);
}

/// A single line with no line feed in it and no carriage return at its
/// end, followed by nothing, by a line
/// feed, or by a carriage return and a line feed, parses to a record that
/// holds only the password, which is that line without its ending.
pub proof fn lemma_single_line_is_password(line: Seq<u8>, ending: Seq<u8>)
    requires
        line.len() > 0,
        valid_utf8(line),
        forall|i: int| 0 <= i < line.len() ==> line[i] != 10,
        line.last() != 13,
        ending == Seq::<u8>::empty() || ending == seq![10u8] || ending == seq![13u8, 10u8],
    ensures
        record_of(text_lines(line + ending)) == Map::<Seq<char>, Seq<char>>::empty().insert(
            password_key(),
            decode_utf8(line),
        ),
{
    lemma_pieces_of_line(line);
    let b = line + ending;
    if ending.len() == 0 {
        assert(b =~= line);
        assert(byte_lines(b) =~= seq![line]);
    } else if ending.len() == 1 {
        assert(b.drop_last() =~= line);
        assert(pieces(b) == seq![line, Seq::<u8>::empty()]);
        assert(byte_lines(b) =~= seq![line]);
    } else {
        assert(b.drop_last() =~= line.push(13));
        assert(b.drop_last().drop_last() =~= line);
        assert forall|i: int| 0 <= i < line.push(13).len() implies line.push(13)[i] != 10 by {
            if i < line.len() {
                assert(line.push(13)[i] == line[i]);
            }
        }
        lemma_pieces_of_line(line.push(13));
        assert(pieces(b) == seq![line.push(13), Seq::<u8>::empty()]);
        assert(strip_cr(line.push(13)) =~= line);
        assert(byte_lines(b) =~= seq![line]);
    }
    let lines = text_lines(b);
    assert(lines =~= seq![Some(decode_utf8(line))]);
    assert(decode_utf8(line).len() > 0);
    assert(lines.drop_first() =~= Seq::<Option<Seq<char>>>::empty());
    assert(record_of(lines) =~= Map::<Seq<char>, Seq<char>>::empty().insert(
        password_key(),
        decode_utf8(line),
    ));
}

proof fn lemma_pieces_of_line(line: Seq<u8>)
    requires
        forall|i: int| 0 <= i < line.len() ==> line[i] != 10,
    ensures
        pieces(line) == seq![line],
    decreases line.len(),
{
    if line.len() == 0 {
        assert(line =~= Seq::<u8>::empty());
        assert(pieces(line) =~= seq![line]);
    } else {
        lemma_pieces_of_line(line.drop_last());
        assert(line[line.len() - 1] != 10);
        assert(line.drop_last().push(line.last()) =~= line);
        let p = pieces(line.drop_last());
        assert(p.update(p.len() - 1, p.last().push(line.last())) =~= seq![line]);
        assert(pieces(line) =~= seq![line]);
    }
}

/// `body` keeps a front part of the lines, and reaches past every line up
/// to which no sentinel comes.
proof fn lemma_body_prefix(lines: Seq<Option<Seq<char>>>, j: int)
    ensures
        body(lines).len() <= lines.len(),
        forall|m: int| 0 <= m < body(lines).len() ==> body(lines)[m] == lines[m],
        0 <= j < lines.len() && (forall|m: int| 0 <= m <= j ==> lines[m] != Some(sentinel()))
            ==> body(lines).len() > j,
    decreases lines.len(),
{
    if lines.len() > 0 && lines[0] != Some(sentinel()) {
        let rest = lines.drop_first();
        lemma_body_prefix(rest, j - 1);
        assert(body(lines) == seq![lines[0]] + body(rest));
        assert forall|m: int| 0 <= m < body(lines).len() implies body(lines)[m] == lines[m] by {
            if m > 0 {
                assert(body(lines)[m] == body(rest)[m - 1]);
                assert(rest[m - 1] == lines[m]);
            }
        }
        if 0 < j < lines.len() && (forall|m: int| 0 <= m <= j ==> lines[m] != Some(sentinel())) {
            assert forall|m: int| 0 <= m <= j - 1 implies rest[m] != Some(sentinel()) by {
                assert(rest[m] == lines[m + 1]);
            }
        }
    }
}

/// A password line followed by a line `id: value` gives the password and the
/// field `id` with the value's leading white space removed, where no later
/// line before a sentinel names `id` again.
pub proof fn lemma_password_and_field(
    password: Seq<char>,
    id: Seq<char>,
    value: Seq<char>,
    rest: Seq<Option<Seq<char>>>,
)
    requires
        password.len() > 0,
        id != password_key(),
        forall|j: int| 0 <= j < id.len() ==> id[j] != ':',
        forall|j: int| 0 <= j < body(rest).len() ==> !names(#[trigger] rest[j], id),
    ensures
        ({
            let r = record_of(seq![Some(password), Some(id + seq![':'] + value)] + rest);
            &&& r.contains_key(password_key())
            &&& r[password_key()] == password
            &&& r.contains_key(id)
            &&& r[id] == trim_start(value)
        }),
{
    let line = id + seq![':'] + value;
    let lines = seq![Some(password), Some(line)] + rest;
    let tail = seq![Some(line)] + rest;
    assert(lines.drop_first() =~= tail);
    lemma_field_line(id, value);
    assert(line[id.len() as int] == ':');
    assert(line != sentinel()) by {
        if line == sentinel() {
            assert(sentinel()[id.len() as int] == ':');
        }
    }
    assert(tail.drop_first() =~= rest);
    let b = body(tail);
    assert(tail[0] == Some(line));
    assert(b == seq![Some(line)] + body(rest));
    lemma_body_prefix(rest, 0);
    assert forall|j: int| 0 < j < b.len() implies !names(#[trigger] b[j], id) by {
        assert(b[j] == body(rest)[j - 1]);
        assert(body(rest)[j - 1] == rest[j - 1]);
    }
    lemma_fields_of_last(b, 0, id, trim_start(value));
}

/// A sentinel line ends the fields: nothing after it counts, and the
/// password of the first line is kept.
pub proof fn lemma_sentinel_ends_fields(
    first: Option<Seq<char>>,
    before: Seq<Option<Seq<char>>>,
    after: Seq<Option<Seq<char>>>,
)
    ensures
        record_of(seq![first] + before + seq![Some(sentinel())] + after) == record_of(
            seq![first] + before,
        ),
        password_of(first) matches Some(p) ==> record_of(
            seq![first] + before + seq![Some(sentinel())] + after,
        ).contains_key(password_key()) && record_of(
            seq![first] + before + seq![Some(sentinel())] + after,
        )[password_key()] == p,
{
    let with = seq![first] + before + seq![Some(sentinel())] + after;
    let without = seq![first] + before;
    assert(with.drop_first() =~= before + seq![Some(sentinel())] + after);
    assert(without.drop_first() =~= before);
    lemma_body_sentinel(before, after);
}

/// Empty input gives a record with no field and no password.
pub proof fn lemma_empty_input()
    ensures
        record_of(text_lines(Seq::<u8>::empty())) == Map::<Seq<char>, Seq<char>>::empty(),
{
    assert(pieces(Seq::<u8>::empty()) == seq![Seq::<u8>::empty()]);
    assert(byte_lines(Seq::<u8>::empty()) =~= Seq::<Seq<u8>>::empty());
    assert(text_lines(Seq::<u8>::empty()) =~= Seq::<Option<Seq<char>>>::empty());
}

/// Of two lines that name the same field, the later one gives its value,
/// where no sentinel comes before it and no line after it, before a
/// sentinel, names the field.
pub proof fn lemma_later_field_wins(
    first: Option<Seq<char>>,
    rest: Seq<Option<Seq<char>>>,
    i: int,
    j: int,
    k: Seq<char>,
    v1: Seq<char>,
    v2: Seq<char>,
)
    requires
        k != password_key(),
        0 <= i < j < rest.len(),
        rest[i] matches Some(l) && field_of(l) == Some((k, v1)),
        rest[j] matches Some(l) && field_of(l) == Some((k, v2)),
        forall|m: int| 0 <= m <= j ==> rest[m] != Some(sentinel()),
        forall|m: int| j < m < body(rest).len() ==> !names(#[trigger] rest[m], k),
    ensures
        record_of(seq![first] + rest).contains_key(k),
        record_of(seq![first] + rest)[k] == v2,
{
    let lines = seq![first] + rest;
    assert(lines.drop_first() =~= rest);
    let b = body(rest);
    lemma_body_prefix(rest, j);
    assert(b[j] == rest[j]);
    assert forall|m: int| j < m < b.len() implies !names(#[trigger] b[m], k) by {
        assert(b[m] == rest[m]);
    }
    lemma_fields_of_last(b, j, k, v2);
}

/// The UTF-8 bytes of one character hold a line feed only for a line feed,
/// and end in a carriage return only for a carriage return.
proof fn lemma_scalar_bytes(c: char)
    ensures
        forall|i: int|
            0 <= i < encode_scalar(c as u32).len() ==> (#[trigger] encode_scalar(c as u32)[i] == 10
                ==> c == '\n'),
        encode_scalar(c as u32).len() > 0,
        encode_scalar(c as u32).last() == 13 ==> c == '\r',
{
    char_is_scalar(c);
    let v = c as u32;
    let e = encode_scalar(v);
    if has_width_1_encoding(v) {
        assert((v & 0x7f) as u8 == v as u8 && v as u8 as u32 == v) by (bit_vector)
            requires
                v <= 0x7f,
        ;
        assert(e[0] as u32 == v);
        assert(e.last() == e[0]);
        assert(v == 10 ==> c == '\n');
        assert(v == 13 ==> c == '\r');
    } else {
        assert((0xC0u8 | (((v >> 6) & 0x1F) as u8)) >= 0x80 && (0xE0u8 | (((v >> 12) & 0x0F)
            as u8)) >= 0x80 && (0xF0u8 | (((v >> 18) & 0x7) as u8)) >= 0x80 && (0x80u8 | ((v
            & 0x3F) as u8)) >= 0x80 && (0x80u8 | (((v >> 6) & 0x3F) as u8)) >= 0x80 && (0x80u8
            | (((v >> 12) & 0x3F) as u8)) >= 0x80) by (bit_vector);
        assert forall|i: int| 0 <= i < e.len() implies e[i] >= 0x80 by {
            if has_width_2_encoding(v) {
            } else if has_width_3_encoding(v) {
            } else {
            }
        }
        assert(e[e.len() - 1] >= 0x80);
    }
}

/// Text with no line feed encodes to bytes with no line feed.
proof fn lemma_encode_no_line_feed(s: Seq<char>)
    requires
        forall|i: int| 0 <= i < s.len() ==> s[i] != '\n',
    ensures
        forall|i: int| 0 <= i < encode_utf8(s).len() ==> encode_utf8(s)[i] != 10,
    decreases s.len(),
{
    if s.len() > 0 {
        lemma_scalar_bytes(s[0]);
        lemma_encode_no_line_feed(s.drop_first());
        let e = encode_scalar(s[0] as u32);
        assert forall|i: int| 0 <= i < encode_utf8(s).len() implies encode_utf8(s)[i] != 10 by {
            if i >= e.len() {
                assert(encode_utf8(s)[i] == encode_utf8(s.drop_first())[i - e.len()]);
            }
        }
    }
}

/// Text that does not end in a carriage return encodes to bytes that do not.
proof fn lemma_encode_last(s: Seq<char>)
    requires
        s.len() > 0,
        s.last() != '\r',
    ensures
        encode_utf8(s).len() > 0,
        encode_utf8(s).last() != 13,
    decreases s.len(),
{
    lemma_scalar_bytes(s[0]);
    let rest = s.drop_first();
    if s.len() == 1 {
        assert(encode_utf8(rest) =~= Seq::<u8>::empty());
        assert(encode_utf8(s) =~= encode_scalar(s[0] as u32));
    } else {
        assert(rest.last() == s.last());
        lemma_encode_last(rest);
    }
}

/// Splitting at a first line feed: the part before it, then the pieces of
/// what follows.
proof fn lemma_pieces_split(a: Seq<u8>, b: Seq<u8>)
    requires
        forall|i: int| 0 <= i < a.len() ==> a[i] != 10,
    ensures
        pieces(a + seq![10u8] + b) == seq![a] + pieces(b),
    decreases b.len(),
{
    let x = a + seq![10u8] + b;
    lemma_pieces_of_line(a);
    if b.len() == 0 {
        assert(x.drop_last() =~= a);
        assert(b =~= Seq::<u8>::empty());
        assert(pieces(x) =~= seq![a] + pieces(b));
    } else {
        lemma_pieces_split(a, b.drop_last());
        lemma_pieces_nonempty(b.drop_last());
        assert(x.drop_last() =~= a + seq![10u8] + b.drop_last());
        assert(x.last() == b.last());
        let p = pieces(b.drop_last());
        if b.last() == 10 {
            assert(pieces(x) =~= seq![a] + pieces(b));
        } else {
            assert((seq![a] + p).update(p.len() as int, p.last().push(b.last())) =~= seq![a]
                + p.update(p.len() - 1, p.last().push(b.last())));
            assert(pieces(x) =~= seq![a] + pieces(b));
        }
    }
}

/// The text lines of a line, a line feed and more bytes.
proof fn lemma_text_lines_split(a: Seq<u8>, b: Seq<u8>)
    requires
        forall|i: int| 0 <= i < a.len() ==> a[i] != 10,
    ensures
        text_lines(a + seq![10u8] + b) == seq![decode_line(strip_cr(a))] + text_lines(b),
{
    lemma_pieces_split(a, b);
    lemma_pieces_nonempty(b);
    let p = pieces(b);
    let x = a + seq![10u8] + b;
    assert((seq![a] + p).drop_last() =~= seq![a] + p.drop_last());
    assert((seq![a] + p).last() == p.last());
    assert(byte_lines(x) =~= seq![strip_cr(a)] + byte_lines(b));
    assert(text_lines(x) =~= seq![decode_line(strip_cr(a))] + text_lines(b));
}

/// A line of text, encoded, with no line feed and no carriage return at its
/// end, reads back as that text.
proof fn lemma_encoded_line(s: Seq<char>)
    requires
        s.len() > 0,
        forall|i: int| 0 <= i < s.len() ==> s[i] != '\n',
        s.last() != '\r',
    ensures
        forall|i: int| 0 <= i < encode_utf8(s).len() ==> encode_utf8(s)[i] != 10,
        decode_line(strip_cr(encode_utf8(s))) == Some(s),
{
    lemma_encode_no_line_feed(s);
    lemma_encode_last(s);
    encode_utf8_valid_utf8(s);
    encode_utf8_decode_utf8(s);
}

/// The bytes of a password line, a line feed, a line `id: value`, a line
/// feed and more lines parse to a record with that password and with the
/// field `id`, whose value is `value` without its leading white space,
/// where no later line before a sentinel names `id` again.
pub proof fn lemma_parse_password_and_field(
    password: Seq<char>,
    id: Seq<char>,
    value: Seq<char>,
    rest: Seq<u8>,
)
    requires
        password.len() > 0,
        forall|i: int| 0 <= i < password.len() ==> password[i] != '\n',
        password.last() != '\r',
        id != password_key(),
        forall|i: int| 0 <= i < id.len() ==> id[i] != ':' && id[i] != '\n',
        forall|i: int| 0 <= i < value.len() ==> value[i] != '\n',
        value.len() == 0 || value.last() != '\r',
        forall|j: int|
            0 <= j < body(text_lines(rest)).len() ==> !names(#[trigger] text_lines(rest)[j], id),
    ensures
        ({
            let r = record_of(
                text_lines(
                    encode_utf8(password) + seq![10u8] + encode_utf8(id + seq![':'] + value)
                        + seq![10u8] + rest,
                ),
            );
            &&& r.contains_key(password_key())
            &&& r[password_key()] == password
            &&& r.contains_key(id)
            &&& r[id] == trim_start(value)
        }),
{
    let line = id + seq![':'] + value;
    assert forall|i: int| 0 <= i < line.len() implies line[i] != '\n' by {
        if i < id.len() {
            assert(line[i] == id[i]);
        } else if i > id.len() {
            assert(line[i] == value[i - id.len() - 1]);
        }
    }
    assert(line.last() != '\r') by {
        if value.len() > 0 {
            assert(line.last() == value.last());
        }
    }
    lemma_encoded_line(password);
    lemma_encoded_line(line);
    let a = encode_utf8(password);
    let f = encode_utf8(line);
    let tail = f + seq![10u8] + rest;
    let input = a + seq![10u8] + f + seq![10u8] + rest;
    assert(input =~= a + seq![10u8] + tail);
    lemma_text_lines_split(a, tail);
    lemma_text_lines_split(f, rest);
    assert(text_lines(input) =~= seq![Some(password), Some(line)] + text_lines(rest));
    lemma_password_and_field(password, id, value, text_lines(rest));
}

} // verus!
