use vstd::prelude::*;
use vstd::utf8::*;

verus! {

#[verifier::external_type_specification]
#[verifier::external_body]
pub struct ExFromUtf8Error(std::string::FromUtf8Error);

/// Every row count and row length of `lines` fits in a `usize`, as in any file buffer.
pub open spec fn sized(lines: Seq<Seq<char>>) -> bool {
    &&& lines.len() <= usize::MAX
    &&& forall|i: int| 0 <= i < lines.len() ==> #[trigger] lines[i].len() <= usize::MAX
}

/// The text of a file with the lines `lines`: each line followed by a newline.
pub open spec fn file_text(lines: Seq<Seq<char>>) -> Seq<char>
    decreases lines.len(),
{
    if lines.len() == 0 {
        Seq::empty()
    } else {
        file_text(lines.drop_last()) + lines.last().push('\n')
    }
}

/// The index of the first newline byte of `s`, or its length where it has none.
pub open spec fn line_end(s: Seq<u8>) -> nat
    decreases s.len(),
{
    if s.len() == 0 {
        0
    } else if s[0] == 10u8 {
        0
    } else {
        1 + line_end(s.drop_first())
    }
}

/// `s` without one carriage return at its end, where it has one.
pub open spec fn strip_cr(s: Seq<u8>) -> Seq<u8> {
    if s.len() > 0 && s.last() == 13u8 {
        s.drop_last()
    } else {
        s
    }
}

/// The lines of the bytes `bytes`, as a line reader gives them: split at each newline,
/// each line ended by a newline without one carriage return before it, and a last line
/// without a newline kept as it is where it is not empty.
pub open spec fn raw_lines(bytes: Seq<u8>) -> Seq<Seq<u8>>
    decreases bytes.len(),
{
    let k = line_end(bytes);
    if bytes.len() == 0 {
        Seq::empty()
    } else if k >= bytes.len() {
        seq![bytes]
    } else {
        seq![strip_cr(bytes.subrange(0, k as int))] + raw_lines(bytes.subrange(k + 1int, bytes.len() as int))
    }
}

/// The lines that are valid UTF-8, decoded; the others are dropped.
pub open spec fn decoded_lines(lines: Seq<Seq<u8>>) -> Seq<Seq<char>>
    decreases lines.len(),
{
    if lines.len() == 0 {
        Seq::empty()
    } else {
        (if valid_utf8(lines[0]) {
            seq![decode_utf8(lines[0])]
        } else {
            Seq::empty()
        }) + decoded_lines(lines.drop_first())
    }
}

/// The first newline of `s` is at `k` where `s[k]` is one and none comes before it, and
/// `s` has none where `line_end` gives its length.
proof fn lemma_line_end(s: Seq<u8>, k: int)
    requires
        0 <= k <= s.len(),
        forall|j: int| 0 <= j < k ==> s[j] != 10u8,
        k < s.len() ==> s[k] == 10u8,
    ensures
        line_end(s) == k,
    decreases k,
{
    if k > 0 {
        lemma_line_end(s.drop_first(), k - 1);
    }
}

/// A line ended by "\r\n" reads as the bytes before the "\r", whatever their number; a
/// line ended by a newline alone reads as the bytes before it, where they do not end in a
/// carriage return; in both cases the rest reads on as the bytes after the newline. A last
/// line without a newline reads as it is.
pub proof fn law_line_split(line: Seq<u8>, rest: Seq<u8>)
    requires
        forall|j: int| 0 <= j < line.len() ==> line[j] != 10u8,
    ensures
        raw_lines(line + seq![13u8, 10u8] + rest) == seq![line] + raw_lines(rest),
        (line.len() == 0 || line[line.len() - 1] != 13u8) ==> raw_lines(line + seq![10u8] + rest) == seq![line]
            + raw_lines(rest),
        line.len() > 0 ==> raw_lines(line) == seq![line],
{
    let crlf = line + seq![13u8, 10u8] + rest;
    let n = line.len() as int;
    lemma_line_end(crlf, n + 1);
    assert(crlf.subrange(0, n + 1) =~= line.push(13u8));
    assert(line.push(13u8).drop_last() =~= line);
    assert(crlf.subrange(n + 2, crlf.len() as int) =~= rest);
    if line.len() == 0 || line[line.len() - 1] != 13u8 {
        let lf = line + seq![10u8] + rest;
        lemma_line_end(lf, n);
        assert(lf.subrange(0, n) =~= line);
        assert(lf.subrange(n + 1, lf.len() as int) =~= rest);
    }
    if line.len() > 0 {
        lemma_line_end(line, n);
    }
}

/// A line that reads back as itself: it holds no newline and does not end in a carriage
/// return.
pub open spec fn plain_line(l: Seq<char>) -> bool {
    &&& forall|j: int| 0 <= j < l.len() ==> l[j] != '\n'
    &&& (l.len() == 0 || l.last() != '\r')
}

/// An ASCII character encodes as its own code; any other as bytes of at least 0x80.
proof fn lemma_scalar_bytes(c: char)
    ensures
        (c as u32) <= 0x7F ==> encode_scalar(c as u32) == seq![(c as u32) as u8],
        (c as u32) > 0x7F ==> forall|i: int|
            0 <= i < encode_scalar(c as u32).len() ==> #[trigger] encode_scalar(c as u32)[i] >= 0x80,
{
    let v = c as u32;
    char_is_scalar(c);
    if v <= 0x7F {
        assert((v & 0x7F) as u8 == v as u8) by (bit_vector)
            requires
                v <= 0x7F,
        ;
        assert(encode_scalar(v) =~= seq![v as u8]);
    } else {
        let b1 = ((v >> 6) & 0x1F) as u8;
        let b2 = ((v >> 12) & 0x0F) as u8;
        let b3 = ((v >> 18) & 0x7) as u8;
        let c1 = (v & 0x3F) as u8;
        let c2 = ((v >> 6) & 0x3F) as u8;
        let c3 = ((v >> 12) & 0x3F) as u8;
        assert((0xC0u8 | b1) >= 0x80) by (bit_vector);
        assert((0xE0u8 | b2) >= 0x80) by (bit_vector);
        assert((0xF0u8 | b3) >= 0x80) by (bit_vector);
        assert((0x80u8 | c1) >= 0x80) by (bit_vector);
        assert((0x80u8 | c2) >= 0x80) by (bit_vector);
        assert((0x80u8 | c3) >= 0x80) by (bit_vector);
    }
}

/// One character encodes as its scalar does.
proof fn lemma_encode_single(c: char)
    ensures
        encode_utf8(seq![c]) == encode_scalar(c as u32),
{
    let s = seq![c];
    assert(s[0] == c);
    assert(s.drop_first() =~= Seq::<char>::empty());
    assert(encode_utf8(s.drop_first()) =~= Seq::<u8>::empty());
    assert(encode_utf8(s) =~= encode_scalar(c as u32));
}

/// A line without newlines encodes without a newline byte.
proof fn lemma_no_newline_byte(l: Seq<char>)
    requires
        forall|j: int| 0 <= j < l.len() ==> l[j] != '\n',
    ensures
        forall|i: int| 0 <= i < encode_utf8(l).len() ==> #[trigger] encode_utf8(l)[i] != 10u8,
    decreases l.len(),
{
    if l.len() > 0 {
        let c = l[0];
        lemma_scalar_bytes(c);
        lemma_no_newline_byte(l.drop_first());
        let e = encode_scalar(c as u32);
        assert forall|i: int| 0 <= i < encode_utf8(l).len() implies #[trigger] encode_utf8(l)[i] != 10u8 by {
            if i < e.len() {
                assert(encode_utf8(l)[i] == e[i]);
                if (c as u32) <= 0x7F {
                    if e[i] == 10u8 {
                        assert((c as u32) as u8 == 10u8);
                        assert(c as u32 == 10);
                        char_u32_cast(c, c as u32);
                        assert(c == '\n');
                    }
                }
            } else {
                assert(encode_utf8(l)[i] == encode_utf8(l.drop_first())[i - e.len()]);
            }
        }
    }
}

/// A plain line encodes without a carriage return at its end.
proof fn lemma_no_trailing_cr(l: Seq<char>)
    requires
        plain_line(l),
    ensures
        strip_cr(encode_utf8(l)) == encode_utf8(l),
{
    if l.len() > 0 {
        let c = l.last();
        lemma_encode_concat(l.drop_last(), seq![c]);
        assert(l.drop_last() + seq![c] =~= l);
        lemma_encode_single(c);
        lemma_scalar_bytes(c);
        let e = encode_utf8(l);
        let s = encode_scalar(c as u32);
        char_is_scalar(c);
        assert(s.len() > 0);
        assert(e.last() == s.last());
        if (c as u32) <= 0x7F {
            if e.last() == 13u8 {
                assert((c as u32) as u8 == 13u8);
                assert(c as u32 == 13);
                char_u32_cast(c, c as u32);
                assert(c == '\r');
            }
        } else {
            assert(s[s.len() - 1] >= 0x80);
        }
    } else {
        assert(encode_utf8(l) =~= Seq::<u8>::empty());
    }
}

/// The text of lines begins with the first line and a newline.
proof fn lemma_file_text_first(lines: Seq<Seq<char>>)
    requires
        lines.len() > 0,
    ensures
        file_text(lines) == lines[0].push('\n') + file_text(lines.drop_first()),
    decreases lines.len(),
{
    if lines.len() == 1 {
        assert(lines.drop_last() =~= Seq::<Seq<char>>::empty());
        assert(lines.drop_first() =~= Seq::<Seq<char>>::empty());
        assert(file_text(lines) =~= lines[0].push('\n') + file_text(lines.drop_first()));
    } else {
        lemma_file_text_first(lines.drop_last());
        assert(lines.drop_last().drop_first() =~= lines.drop_first().drop_last());
        assert(lines.drop_first().last() == lines.last());
        assert(file_text(lines) =~= lines[0].push('\n') + file_text(lines.drop_first()));
    }
}

/// Plain lines, written as text and encoded, read back as the same lines.
pub proof fn law_read_after_write(lines: Seq<Seq<char>>)
    requires
        forall|i: int| 0 <= i < lines.len() ==> plain_line(#[trigger] lines[i]),
    ensures
        decoded_lines(raw_lines(encode_utf8(file_text(lines)))) == lines,
    decreases lines.len(),
{
    if lines.len() == 0 {
        assert(encode_utf8(file_text(lines)) =~= Seq::<u8>::empty());
        assert(decoded_lines(raw_lines(Seq::<u8>::empty())) =~= lines);
    } else {
        let l0 = lines[0];
        let rest = lines.drop_first();
        assert(plain_line(l0));
        assert forall|i: int| 0 <= i < rest.len() implies plain_line(#[trigger] rest[i]) by {
            assert(rest[i] == lines[i + 1]);
        }
        law_read_after_write(rest);
        lemma_file_text_first(lines);
        let e0 = encode_utf8(l0);
        let er = encode_utf8(file_text(rest));
        lemma_encode_concat(l0, seq!['\n']);
        assert(l0 + seq!['\n'] =~= l0.push('\n'));
        lemma_encode_concat(l0.push('\n'), file_text(rest));
        lemma_encode_single('\n');
        lemma_scalar_bytes('\n');
        assert(encode_utf8(seq!['\n']) =~= seq![10u8]);
        let bytes = encode_utf8(file_text(lines));
        assert(bytes =~= e0 + seq![10u8] + er);
        lemma_no_newline_byte(l0);
        lemma_line_end(bytes, e0.len() as int);
        assert(bytes.subrange(0, e0.len() as int) =~= e0);
        assert(bytes.subrange(e0.len() + 1int, bytes.len() as int) =~= er);
        lemma_no_trailing_cr(l0);
        encode_utf8_valid_utf8(l0);
        encode_utf8_decode_utf8(l0);
        assert(raw_lines(bytes) == seq![e0] + raw_lines(er));
        assert((seq![e0] + raw_lines(er)).drop_first() =~= raw_lines(er));
        assert(decoded_lines(raw_lines(bytes)) =~= seq![l0] + rest);
        assert(seq![l0] + rest =~= lines);
    }
}

/// `str::from_utf8` on one line, its characters copied into a vector. Claimed, as its
/// documentation says: it succeeds exactly when the bytes are valid UTF-8, and the
/// characters are those they encode.
#[verifier::external_body]
fn decode_line(bytes: &[u8]) -> (r: Option<Vec<char>>)
    ensures
        r is Some <==> valid_utf8(bytes@),
        r matches Some(v) ==> v@ == decode_utf8(bytes@),
{
    match std::str::from_utf8(bytes) {
        Ok(s) => Some(s.chars().collect()),
        Err(_) => None,
    }
}

/// The UTF-8 encoding of a sequence is that of its parts, one after the other.
proof fn lemma_encode_concat(a: Seq<char>, b: Seq<char>)
    ensures
        encode_utf8(a + b) == encode_utf8(a) + encode_utf8(b),
    decreases a.len(),
{
    if a.len() == 0 {
        assert(a + b =~= b);
        assert(encode_utf8(a) =~= Seq::<u8>::empty());
        assert(Seq::<u8>::empty() + encode_utf8(b) =~= encode_utf8(b));
    } else {
        assert((a + b).drop_first() =~= a.drop_first() + b);
        assert((a + b)[0] == a[0]);
        lemma_encode_concat(a.drop_first(), b);
        assert(encode_utf8(a + b) =~= encode_utf8(a) + encode_utf8(b));
    }
}

/// The UTF-8 encoding of `c`: `char::encode_utf8`, whose bytes are copied into a vector.
/// Claimed: the bytes are the standard UTF-8 encoding of `c`.
#[verifier::external_body]
fn encode_char(c: char) -> (r: Vec<u8>)
    ensures
        r@ == encode_utf8(seq![c]),
{
    let mut b = [0u8; 4];
    c.encode_utf8(&mut b).as_bytes().to_vec()
}

/// `String::from_utf8`. Claimed, as its documentation says: it succeeds exactly when the
/// bytes are valid UTF-8, and the string then holds the characters they encode.
#[verifier::external_body]
fn string_from_utf8(bytes: Vec<u8>) -> (r: Result<String, std::string::FromUtf8Error>)
    ensures
        r is Ok <==> valid_utf8(bytes@),
        r matches Ok(s) ==> s@ == decode_utf8(bytes@),
{
    String::from_utf8(bytes)
}

/// The text of one file, held as a sequence of lines of characters.
pub struct FileBuffer {
    file: Vec<Vec<char>>,
}

impl View for FileBuffer {
    type V = Seq<Seq<char>>;

    closed spec fn view(&self) -> Seq<Seq<char>> {
        self.file@.map_values(|l: Vec<char>| l@)
    }
}

impl FileBuffer {
    /// The buffer's row count and row lengths all fit in a `usize`.
    pub proof fn lemma_sized(&self)
        ensures
            sized(self@),
    {
        assert(self.file@.len() == self.file.len());
        assert forall|i: int| 0 <= i < self@.len() implies #[trigger] self@[i].len() <= usize::MAX by {
            let line = self.file@[i];
            assert(self@[i] == line@);
            assert(line@.len() == line.len());
        }
    }

    /// The number of lines.
    pub fn len(&self) -> (n: usize)
        ensures
            n == self@.len(),
    {
        self.file.len()
    }

    /// The length of line `y`, or `None` past the last line.
    pub fn line_len(&self, y: usize) -> (r: Option<usize>)
        ensures
            match r {
                Some(n) => y < self@.len() && n == self@[y as int].len(),
                None => y >= self@.len(),
            },
    {
        if y < self.file.len() {
            Some(self.file[y].len())
        } else {
            None
        }
    }

    /// Line `y`, or `None` past the last line.
    pub fn get_line(&self, y: usize) -> (r: Option<&Vec<char>>)
        ensures
            match r {
                Some(l) => y < self@.len() && l@ == self@[y as int],
                None => y >= self@.len(),
            },
    {
        if y < self.file.len() {
            Some(&self.file[y])
        } else {
            None
        }
    }

    /// Line `y` for writing, or `None` past the last line.
    pub fn get_line_mut(&mut self, y: usize) -> (r: Option<&mut Vec<char>>)
        ensures
            match r {
                Some(l) => {
                    &&& y < old(self)@.len()
                    &&& l@ == old(self)@[y as int]
                    &&& final(self)@ == old(self)@.update(y as int, final(l)@)
                },
                None => y >= old(self)@.len() && final(self)@ == old(self)@,
            },
    {
        if y < self.file.len() {
            Some(&mut self.file[y])
        } else {
            None
        }
    }

    /// The character at column `x` of line `y`, or `None` where there is none.
    pub fn get(&self, y: usize, x: usize) -> (r: Option<&char>)
        ensures
            match r {
                Some(c) => y < self@.len() && x < self@[y as int].len() && *c == self@[y as int][x as int],
                None => y >= self@.len() || x >= self@[y as int].len(),
            },
    {
        let line = match self.get_line(y) {
            Some(l) => l,
            None => return None,
        };
        if x < line.len() {
            Some(&line[x])
        } else {
            None
        }
    }

    /// The character at column `x` of line `y` for writing, or `None` where there is none.
    pub fn get_mut(&mut self, y: usize, x: usize) -> (r: Option<&mut char>)
        ensures
            match r {
                Some(c) => {
                    &&& y < old(self)@.len()
                    &&& x < old(self)@[y as int].len()
                    &&& *c == old(self)@[y as int][x as int]
                    &&& final(self)@ == old(self)@.update(
                        y as int,
                        old(self)@[y as int].update(x as int, *final(c)),
                    )
                },
                None => {
                    &&& y >= old(self)@.len() || x >= old(self)@[y as int].len()
                    &&& final(self)@ == old(self)@
                },
            },
    {
        if y < self.file.len() && x < self.file[y].len() {
            Some(&mut self.file[y][x])
        } else {
            None
        }
    }

    /// The buffer holding the lines of the file contents `bytes`: the lines a line reader
    /// gives, those that are not valid UTF-8 left out.
    pub fn from_bytes(bytes: &[u8]) -> (r: FileBuffer)
        ensures
            r@ == decoded_lines(raw_lines(bytes@)),
    {
        let mut file: Vec<Vec<char>> = Vec::new();
        let mut cur: Vec<u8> = Vec::new();
        let mut start: usize = 0;
        let mut i: usize = 0;
        let ghost all = bytes@;
        proof {
            assert(all.subrange(0, all.len() as int) =~= all);
            assert(file@.map_values(|l: Vec<char>| l@) =~= Seq::<Seq<char>>::empty());
        }
        while i < bytes.len()
            invariant
                all == bytes@,
                start <= i <= all.len(),
                cur@ == all.subrange(start as int, i as int),
                forall|j: int| start <= j < i ==> all[j] != 10u8,
                decoded_lines(raw_lines(all)) == file@.map_values(|l: Vec<char>| l@) + decoded_lines(
                    raw_lines(all.subrange(start as int, all.len() as int)),
                ),
            decreases all.len() - i,
        {
            if bytes[i] == 10u8 {
                let ghost rest = all.subrange(start as int, all.len() as int);
                proof {
                    lemma_line_end(rest, i - start);
                    assert(rest.subrange(0, i - start) =~= cur@);
                    assert(rest.subrange(i - start + 1, rest.len() as int) =~= all.subrange(
                        i + 1,
                        all.len() as int,
                    ));
                }
                if cur.len() > 0 && cur[cur.len() - 1] == 13u8 {
                    cur.pop();
                }
                let ghost seg = cur@;
                proof {
                    assert(seg == strip_cr(rest.subrange(0, i - start)));
                    assert(raw_lines(rest) == seq![seg] + raw_lines(all.subrange(i + 1, all.len() as int)));
                    assert((seq![seg] + raw_lines(all.subrange(i + 1, all.len() as int))).drop_first()
                        =~= raw_lines(all.subrange(i + 1, all.len() as int)));
                }
                let ghost before = file@.map_values(|l: Vec<char>| l@);
                match decode_line(cur.as_slice()) {
                    Some(line) => {
                        file.push(line);
                        proof {
                            assert(file@.map_values(|l: Vec<char>| l@) =~= before + seq![decode_utf8(seg)]);
                        }
                    },
                    None => {},
                }
                proof {
                    assert(decoded_lines(raw_lines(all)) =~= file@.map_values(|l: Vec<char>| l@)
                        + decoded_lines(raw_lines(all.subrange(i + 1, all.len() as int))));
                }
                cur = Vec::new();
                start = i + 1;
            } else {
                cur.push(bytes[i]);
            }
            i = i + 1;
            proof {
                assert(cur@ =~= all.subrange(start as int, i as int));
            }
        }
        if start < i {
            let ghost rest = all.subrange(start as int, all.len() as int);
            proof {
                lemma_line_end(rest, rest.len() as int);
                assert(rest =~= cur@);
                assert(raw_lines(rest) == seq![rest]);
                assert(raw_lines(rest).drop_first() =~= Seq::<Seq<u8>>::empty());
                assert(decoded_lines(raw_lines(rest).drop_first()) == Seq::<Seq<char>>::empty());
                assert(decoded_lines(raw_lines(rest)) =~= (if valid_utf8(rest) {
                    seq![decode_utf8(rest)]
                } else {
                    Seq::<Seq<char>>::empty()
                }));
            }
            let ghost before = file@.map_values(|l: Vec<char>| l@);
            match decode_line(cur.as_slice()) {
                Some(line) => {
                    file.push(line);
                    proof {
                        assert(file@.map_values(|l: Vec<char>| l@) =~= before + seq![decode_utf8(rest)]);
                    }
                },
                None => {},
            }
            proof {
                assert(decoded_lines(raw_lines(all)) =~= file@.map_values(|l: Vec<char>| l@));
            }
        } else {
            proof {
                assert(all.subrange(start as int, all.len() as int) =~= Seq::<u8>::empty());
                assert(decoded_lines(raw_lines(all)) =~= file@.map_values(|l: Vec<char>| l@));
            }
        }
        FileBuffer { file }
    }

    /// The text of the buffer, each line followed by a newline. It always succeeds.
    pub fn write_file(&self) -> (r: Result<String, std::string::FromUtf8Error>)
        ensures
            r matches Ok(s) && s@ == file_text(self@),
    {
        let mut bytes: Vec<u8> = Vec::new();
        let mut i: usize = 0;
        while i < self.file.len()
            invariant
                i <= self@.len(),
                bytes@ == encode_utf8(file_text(self@.subrange(0, i as int))),
            decreases self@.len() - i,
        {
            let line = &self.file[i];
            let ghost done = file_text(self@.subrange(0, i as int));
            proof {
                assert(line@ == self@[i as int]);
                assert(done + line@.subrange(0, 0) =~= done);
            }
            let mut j: usize = 0;
            while j < line.len()
                invariant
                    j <= line@.len(),
                    bytes@ == encode_utf8(done + line@.subrange(0, j as int)),
                decreases line@.len() - j,
            {
                let mut enc = encode_char(line[j]);
                proof {
                    lemma_encode_concat(done + line@.subrange(0, j as int), seq![line@[j as int]]);
                    assert(done + line@.subrange(0, j as int) + seq![line@[j as int]] =~= done
                        + line@.subrange(0, j + 1));
                }
                bytes.append(&mut enc);
                j = j + 1;
            }
            let mut enc = encode_char('\n');
            proof {
                lemma_encode_concat(done + line@, seq!['\n']);
                assert(line@.subrange(0, j as int) =~= line@);
                assert(self@.subrange(0, i + 1).drop_last() =~= self@.subrange(0, i as int));
                assert(done + line@ + seq!['\n'] =~= file_text(self@.subrange(0, i + 1)));
            }
            bytes.append(&mut enc);
            i = i + 1;
        }
        proof {
            assert(self@.subrange(0, i as int) =~= self@);
            vstd::utf8::encode_utf8_valid_utf8(file_text(self@));
            vstd::utf8::encode_utf8_decode_utf8(file_text(self@));
        }
        string_from_utf8(bytes)
    }

    /// Adds `newline` as the last line.
    pub fn append(&mut self, newline: Vec<char>)
        ensures
            final(self)@ == old(self)@.push(newline@),
    {
        self.file.push(newline);
        proof {
            assert(self@ =~= old(self)@.push(newline@));
        }
    }
}

} // verus!
