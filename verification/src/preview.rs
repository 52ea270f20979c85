//! One bounded, on-demand window into a remote file. Nothing is persisted locally.
use crate::text::{
    chars_of, char_from_ascii, digit_char, digits, drop_leading, drop_trailing, hexadecimal,
    is_control,
    is_control_char, pad_left, pad_right, padded_left, padded_right, push_chars, string_of,
};
use vstd::prelude::*;
use vstd::slice::slice_subrange;
use vstd::utf8::{
    decode_utf8, decode_utf8_split, is_char_boundary, is_char_boundary_iff_not_is_continuation_byte,
    is_char_boundary_start_end_of_seq, is_continuation_byte, length_of_first_scalar,
    pop_first_scalar, valid_utf8, valid_utf8_split,
};

verus! {

/// The size of the window shown at once; a chunk reads up to three bytes
/// beyond it to finish a character that straddles its end.
pub const CHUNK_BYTES: usize = 64 * 1024;

/// A range of a remote file that starts at `offset`, in a file of `size` bytes.
#[derive(Debug)]
pub struct Chunk {
    pub offset: u64,
    pub size: u64,
    pub bytes: Vec<u8>,
}

/// `std::str::from_utf8`: the characters that `bytes` encode, if they are
/// well-formed UTF-8 (as `vstd::utf8` defines it), and nothing otherwise.
#[verifier::external_body]
fn utf8_text(bytes: &[u8]) -> (r: Option<String>)
    ensures
        r is Some <==> valid_utf8(bytes@),
        r matches Some(s) ==> s@ == decode_utf8(bytes@),
{
    std::str::from_utf8(bytes).ok().map(str::to_owned)
}

/// The first index at or after `from`, and before `limit`, that does not hold
/// a UTF-8 continuation byte; `limit` if there is none.
pub open spec fn skip_continuations(b: Seq<u8>, from: int, limit: int) -> int
    decreases limit - from,
{
    if from < limit && is_continuation_byte(b[from]) {
        skip_continuations(b, from + 1, limit)
    } else {
        from
    }
}

pub open spec fn min_int(a: int, b: int) -> int {
    if a < b {
        a
    } else {
        b
    }
}

/// Where the text of a chunk starts: past the continuation bytes, among the
/// first three, of a character that the previous chunk finished.
pub open spec fn window_start(offset: u64, b: Seq<u8>) -> int {
    if offset > 0 {
        skip_continuations(b, 0, min_int(b.len() as int, 3))
    } else {
        0
    }
}

/// Where the text of a chunk ends: at the window's end, or past the
/// continuation bytes that finish the character straddling it.
pub open spec fn window_end(b: Seq<u8>) -> int {
    skip_continuations(b, min_int(b.len() as int, CHUNK_BYTES as int), b.len() as int)
}

/// A control character other than a line feed, carriage return or tab.
pub open spec fn is_unprintable(c: char) -> bool {
    is_control(c) && c != '\n' && c != '\r' && c != '\t'
}

pub open spec fn has_unprintable(s: Seq<char>) -> bool {
    exists|i: int| 0 <= i < s.len() && is_unprintable(#[trigger] s[i])
}

/// The text of the chunk at `offset` holding `b`: the well-formed UTF-8 of
/// its window without other control characters than line breaks and tabs,
/// and without byte order marks at the very start of the file.
pub open spec fn chunk_text(offset: u64, b: Seq<u8>) -> Option<Seq<char>> {
    let w = b.subrange(window_start(offset, b), window_end(b));
    if !valid_utf8(w) || has_unprintable(decode_utf8(w)) {
        None
    } else if offset == 0 {
        Some(without_bom(decode_utf8(w)))
    } else {
        Some(decode_utf8(w))
    }
}

/// The lines of `t`, split at every line feed ("" gives one empty line).
pub open spec fn split_lines(t: Seq<char>) -> Seq<Seq<char>>
    decreases t.len(),
{
    if t.len() == 0 {
        seq![Seq::<char>::empty()]
    } else if t.last() == '\n' {
        split_lines(t.drop_last()).push(Seq::<char>::empty())
    } else {
        let s = split_lines(t.drop_last());
        s.update(s.len() - 1, s.last().push(t.last()))
    }
}

/// The lines of `t` without the carriage returns that end them.
pub open spec fn text_lines(t: Seq<char>) -> Seq<Seq<char>> {
    split_lines(t).map_values(|l: Seq<char>| without_cr(l))
}

/// `l` without the carriage returns at its end.
pub open spec fn without_cr(l: Seq<char>) -> Seq<char> {
    drop_trailing(l, |c: char| c == '\r')
}

/// `t` without the byte order marks at its start.
pub open spec fn without_bom(t: Seq<char>) -> Seq<char> {
    drop_leading(t, |c: char| c == '\u{feff}')
}

/// A byte as two lowercase hexadecimal digits and a space.
pub open spec fn hex_byte(b: u8) -> Seq<char> {
    pad_left(hexadecimal(b as nat), '0', 2).push(' ')
}

pub open spec fn hex_field(row: Seq<u8>) -> Seq<char>
    decreases row.len(),
{
    if row.len() == 0 {
        Seq::empty()
    } else {
        hex_field(row.drop_last()) + hex_byte(row.last())
    }
}

/// A byte as a printable ASCII character, or a dot.
pub open spec fn ascii_char(b: u8) -> char {
    if 0x20 <= b <= 0x7e {
        (b as u32) as char
    } else {
        '.'
    }
}

/// One row of the hexadecimal view: the address in at least eight digits,
/// the bytes in hexadecimal padded to sixteen bytes' width, and as characters.
pub open spec fn hex_line(address: nat, row: Seq<u8>) -> Seq<char> {
    pad_left(hexadecimal(address), '0', 8) + seq![' ', ' '] + pad_right(hex_field(row), ' ', 48)
        + seq![' '] + row.map_values(|b: u8| ascii_char(b))
}

pub open spec fn row_count(n: nat) -> nat {
    (n + 15) / 16
}

/// The bytes of row `i` of `data`.
pub open spec fn row_bytes(data: Seq<u8>, i: int) -> Seq<u8> {
    data.subrange(16 * i, min_int(16 * i + 16, data.len() as int))
}

/// The hexadecimal view of `data`, which starts at `offset` in the file.
pub open spec fn hex_lines(offset: nat, data: Seq<u8>) -> Seq<Seq<char>> {
    Seq::new(row_count(data.len()), |i: int| hex_line((offset + 16 * i) as nat, row_bytes(data, i)))
}

/// The bytes shown by the hexadecimal view of a chunk.
pub open spec fn shown_bytes(b: Seq<u8>) -> Seq<u8> {
    b.subrange(0, min_int(b.len() as int, CHUNK_BYTES as int))
}

/// What `Chunk::lines` gives: whether the chunk is shown as binary, and its lines.
pub open spec fn chunk_lines(offset: u64, b: Seq<u8>) -> (bool, Seq<Seq<char>>) {
    match chunk_text(offset, b) {
        Some(t) => (false, text_lines(t)),
        None => (true, hex_lines(offset as nat, shown_bytes(b))),
    }
}

/// The characters of each string.
pub open spec fn strings_view(v: Seq<String>) -> Seq<Seq<char>> {
    v.map_values(|s: String| s@)
}

/// The first index at or after `from`, and before `limit`, without a continuation byte.
fn skip_continuation_bytes(b: &Vec<u8>, from: usize, limit: usize) -> (r: usize)
    requires
        from <= limit <= b.len(),
    ensures
        r == skip_continuations(b@, from as int, limit as int),
        from <= r <= limit,
    decreases limit - from,
{
    if from < limit && 0x80 <= b[from] && b[from] <= 0xbf {
        skip_continuation_bytes(b, from + 1, limit)
    } else {
        from
    }
}

impl Chunk {
    /// Whether a further chunk follows this one: the file goes on past its
    /// window, and this chunk filled its window.
    pub fn has_next(&self) -> (r: bool)
        ensures
            r == (min_int(self.offset + CHUNK_BYTES, u64::MAX as int) < self.size
                && self.bytes.len() >= CHUNK_BYTES),
    {
        self.offset.saturating_add(CHUNK_BYTES as u64) < self.size && self.bytes.len()
            >= CHUNK_BYTES
    }

    /// Where the shown part of the chunk ends: after its window, and not
    /// past the end of the file.
    pub fn shown_end(&self) -> (r: u64)
        requires
            self.offset + self.bytes.len() <= u64::MAX,
        ensures
            r == min_int(self.offset + min_int(self.bytes.len() as int, CHUNK_BYTES as int), self.size as int),
    {
        let shown = if self.bytes.len() < CHUNK_BYTES { self.bytes.len() } else { CHUNK_BYTES };
        let end = self.offset + shown as u64;
        if end < self.size { end } else { self.size }
    }

    /// What an empty chunk says: the file is empty, or its end was reached.
    pub fn empty_message(&self) -> (r: &'static str)
        ensures
            r@ == if self.offset == 0 {
                "This file is empty."@
            } else {
                "End of file. Reload if it has changed."@
            },
    {
        if self.offset == 0 {
            "This file is empty."
        } else {
            "End of file. Reload if it has changed."
        }
    }

    /// The text of the chunk, or nothing when it is to be shown as binary.
    pub fn text(&self) -> (r: Option<String>)
        ensures
            r matches Some(s) ==> chunk_text(self.offset, self.bytes@) == Some(s@),
            r is None ==> chunk_text(self.offset, self.bytes@) is None,
    {
        let len = self.bytes.len();
        let start = if self.offset > 0 {
            skip_continuation_bytes(&self.bytes, 0, if len < 3 { len } else { 3 })
        } else {
            0
        };
        let end = skip_continuation_bytes(
            &self.bytes,
            if len < CHUNK_BYTES { len } else { CHUNK_BYTES },
            len,
        );
        let window = slice_subrange(self.bytes.as_slice(), start, end);
        assert(window@ == self.bytes@.subrange(
            window_start(self.offset, self.bytes@),
            window_end(self.bytes@),
        ));
        let decoded = match utf8_text(window) {
            Some(s) => s,
            None => return None,
        };
        let chars = chars_of(decoded.as_str());
        let mut i: usize = 0;
        while i < chars.len()
            invariant
                i <= chars.len(),
                valid_utf8(window@),
                chars@ == decode_utf8(window@),
                window@ == self.bytes@.subrange(
                    window_start(self.offset, self.bytes@),
                    window_end(self.bytes@),
                ),
                forall|k: int| 0 <= k < i ==> !is_unprintable(#[trigger] chars@[k]),
            decreases chars.len() - i,
        {
            let c = chars[i];
            if is_control_char(c) && c != '\n' && c != '\r' && c != '\t' {
                assert(is_unprintable(chars@[i as int]));
                assert(has_unprintable(decode_utf8(window@)));
                return None;
            }
            i = i + 1;
        }
        if self.offset == 0 {
            let mut skip: usize = 0;
            while skip < chars.len() && chars[skip] == '\u{feff}'
                invariant
                    skip <= chars.len(),
                    forall|k: int| 0 <= k < skip ==> #[trigger] chars@[k] == '\u{feff}',
                decreases chars.len() - skip,
            {
                skip = skip + 1;
            }
            proof {
                let bom = |c: char| c == '\u{feff}';
                crate::text::lemma_drop_leading_skip(chars@, bom, skip as int);
                let rest = chars@.subrange(skip as int, chars.len() as int);
                if rest.len() > 0 {
                    assert(rest[0] == chars@[skip as int]);
                }
                assert(drop_leading(rest, bom) == rest);
            }
            let rest = crate::text::slice_chars(&chars, skip, chars.len());
            Some(string_of(&rest))
        } else {
            Some(decoded)
        }
    }

    /// The lines of the chunk's text, or of its hexadecimal view when it is
    /// binary; the flag tells which.
    pub fn lines(&self) -> (r: (bool, Vec<String>))
        requires
            self.offset + self.bytes.len() <= u64::MAX,
        ensures
            r.0 == chunk_lines(self.offset, self.bytes@).0,
            strings_view(r.1@) == chunk_lines(self.offset, self.bytes@).1,
    {
        match self.text() {
            Some(text) => {
                let chars = chars_of(text.as_str());
                (false, text_lines_of(&chars))
            },
            None => {
                let shown = if self.bytes.len() < CHUNK_BYTES {
                    self.bytes.len()
                } else {
                    CHUNK_BYTES
                };
                let data = slice_subrange(self.bytes.as_slice(), 0, shown);
                (true, hex_lines_of(self.offset, data))
            },
        }
    }
}

/// The lines of `t`, split at line feeds and without trailing carriage returns.
fn text_lines_of(t: &Vec<char>) -> (r: Vec<String>)
    ensures
        strings_view(r@) == text_lines(t@),
{
    let mut done: Vec<String> = Vec::new();
    let mut line: Vec<char> = Vec::new();
    let ghost mut raw: Seq<Seq<char>> = Seq::empty();
    let mut i: usize = 0;
    while i < t.len()
        invariant
            i <= t.len(),
            split_lines(t@.take(i as int)) == raw.push(line@),
            strings_view(done@) == raw.map_values(
                |l: Seq<char>| without_cr(l),
            ),
        decreases t.len() - i,
    {
        assert(t@.take(i + 1).drop_last() == t@.take(i as int));
        if t[i] == '\n' {
            let finished = without_trailing_cr(&line);
            let ghost old_done = done@;
            let piece = string_of(&finished);
            let ghost piece_view = piece@;
            done.push(piece);
            proof {
                assert(old_done.len() == raw.len()) by {
                    assert(strings_view(old_done).len() == old_done.len());
                }
                assert forall|k: int| 0 <= k < done@.len() implies #[trigger] strings_view(done@)[k]
                    == raw.push(line@).map_values(|l: Seq<char>| without_cr(l))[k] by {
                    assert(strings_view(done@)[k] == done@[k]@);
                    if k == old_done.len() {
                        assert(done@[k]@ == piece_view);
                    } else {
                        assert(done@[k] == old_done[k]);
                        assert(strings_view(old_done)[k] == raw.map_values(
                            |l: Seq<char>| without_cr(l),
                        )[k]);
                    }
                }
                raw = raw.push(line@);
            }
            line = Vec::new();
            assert(split_lines(t@.take(i + 1)) =~= raw.push(line@));
            assert(strings_view(done@) =~= raw.map_values(
                |l: Seq<char>| without_cr(l),
            ));
        } else {
            line.push(t[i]);
            assert(split_lines(t@.take(i + 1)) =~= raw.push(line@));
        }
        i = i + 1;
    }
    let finished = without_trailing_cr(&line);
    let ghost old_done = done@;
    let piece = string_of(&finished);
    let ghost piece_view = piece@;
    done.push(piece);
    assert(t@.take(t.len() as int) == t@);
    assert(old_done.len() == raw.len()) by {
        assert(strings_view(old_done).len() == old_done.len());
    }
    assert forall|k: int| 0 <= k < done@.len() implies #[trigger] strings_view(done@)[k]
        == raw.push(line@).map_values(|l: Seq<char>| without_cr(l))[k] by {
        assert(strings_view(done@)[k] == done@[k]@);
        if k == old_done.len() {
            assert(done@[k]@ == piece_view);
        } else {
            assert(done@[k] == old_done[k]);
            assert(strings_view(old_done)[k] == raw.map_values(|l: Seq<char>| without_cr(l))[k]);
        }
    }
    assert(strings_view(done@) =~= raw.push(line@).map_values(
        |l: Seq<char>| without_cr(l),
    ));
    done
}

/// `line` without the carriage returns at its end.
fn without_trailing_cr(line: &Vec<char>) -> (r: Vec<char>)
    ensures
        r@ == without_cr(line@),
{
    let mut end = line.len();
    while end > 0 && line[end - 1] == '\r'
        invariant
            end <= line.len(),
            forall|k: int| end <= k < line.len() ==> #[trigger] line@[k] == '\r',
        decreases end,
    {
        end = end - 1;
    }
    proof {
        let cr = |c: char| c == '\r';
        crate::text::lemma_drop_trailing_skip(line@, cr, end as int);
        let core = line@.subrange(0, end as int);
        if core.len() > 0 {
            assert(core.last() == line@[end - 1]);
        }
        assert(drop_trailing(core, cr) == core);
    }
    crate::text::slice_chars(line, 0, end)
}

/// The hexadecimal view of `data`, which starts at `offset` in the file.
fn hex_lines_of(offset: u64, data: &[u8]) -> (r: Vec<String>)
    requires
        offset + data.len() <= u64::MAX,
        data.len() <= CHUNK_BYTES,
    ensures
        strings_view(r@) == hex_lines(offset as nat, data@),
{
    let mut lines: Vec<String> = Vec::new();
    let mut start: usize = 0;
    let ghost rows = row_count(data@.len());
    while start < data.len()
        invariant
            offset + data.len() <= u64::MAX,
            data.len() <= CHUNK_BYTES,
            start <= data.len() + 15,
            start % 16 == 0,
            lines.len() == start / 16,
            start < data.len() ==> lines.len() < rows,
            start >= data.len() ==> lines.len() == rows,
            rows == row_count(data@.len()),
            forall|k: int|
                0 <= k < lines.len() ==> #[trigger] lines@[k]@ == hex_line(
                    (offset + 16 * k) as nat,
                    row_bytes(data@, k),
                ),
        decreases data.len() + 16 - start,
    {
        let end = if data.len() - start < 16 {
            data.len()
        } else {
            start + 16
        };
        let row = slice_subrange(data, start, end);
        assert(row@ == row_bytes(data@, lines.len() as int));
        let line = hex_line_of(offset + start as u64, row);
        let ghost k = lines.len();
        lines.push(line);
        start = start + 16;
    }
    assert(strings_view(lines@) =~= hex_lines(offset as nat, data@));
    lines
}

/// One row of the hexadecimal view.
fn hex_line_of(address: u64, row: &[u8]) -> (r: String)
    requires
        row.len() <= 16,
    ensures
        r@ == hex_line(address as nat, row@),
{
    let mut s = String::new();
    let address_digits = padded_left(digits(address, 16), '0', 8);
    push_chars(&mut s, &address_digits);
    let gap: Vec<char> = vec![' ', ' '];
    push_chars(&mut s, &gap);
    let mut hex: Vec<char> = Vec::new();
    let mut ascii: Vec<char> = Vec::new();
    let mut i: usize = 0;
    while i < row.len()
        invariant
            i <= row.len(),
            hex@ == hex_field(row@.take(i as int)),
            ascii@ == row@.take(i as int).map_values(|b: u8| ascii_char(b)),
        decreases row.len() - i,
    {
        let b = row[i];
        let pair = padded_left(digits(b as u64, 16), '0', 2);
        let mut k: usize = 0;
        let ghost before = hex@;
        while k < pair.len()
            invariant
                k <= pair.len(),
                hex@ == before + pair@.take(k as int),
            decreases pair.len() - k,
        {
            hex.push(pair[k]);
            assert(before + pair@.take(k + 1) =~= before + pair@.take(k as int) + seq![pair@[k as int]]);
            k = k + 1;
        }
        hex.push(' ');
        assert(pair@.take(pair.len() as int) == pair@);
        assert(row@.take(i + 1).drop_last() == row@.take(i as int));
        assert(hex@ =~= hex_field(row@.take(i + 1)));
        let shown = if 0x20 <= b && b <= 0x7e {
            char_from_ascii(b)
        } else {
            '.'
        };
        ascii.push(shown);
        assert(ascii@ =~= row@.take(i + 1).map_values(|b: u8| ascii_char(b)));
        i = i + 1;
    }
    assert(row@.take(row.len() as int) == row@);
    let field = padded_right(hex, ' ', 48);
    push_chars(&mut s, &field);
    let space: Vec<char> = vec![' '];
    push_chars(&mut s, &space);
    push_chars(&mut s, &ascii);
    assert(s@ =~= hex_line(address as nat, row@));
    s
}

/// The preview of one remote file, at one range.
pub struct FilePreview {
    pub id: u64,
    pub path: String,
    pub name: String,
    pub host: String,
    pub offset: u64,
    pub chunk: Option<Chunk>,
    pub lines: Vec<String>,
    pub binary: bool,
    pub error: Option<String>,
}

impl FilePreview {
    /// Shows the outcome of a read: a chunk replaces the lines and clears the
    /// error; an error is recorded and the previous content stays.
    pub fn accept(&mut self, result: Result<Chunk, String>)
        requires
            result matches Ok(c) ==> c.offset + c.bytes.len() <= u64::MAX,
        ensures
            final(self).id == old(self).id,
            final(self).path == old(self).path,
            final(self).name == old(self).name,
            final(self).host == old(self).host,
            final(self).offset == old(self).offset,
            match result {
                Ok(c) => {
                    &&& final(self).chunk == Some(c)
                    &&& final(self).binary == chunk_lines(c.offset, c.bytes@).0
                    &&& strings_view(final(self).lines@) == chunk_lines(c.offset, c.bytes@).1
                    &&& final(self).error is None
                },
                Err(e) => {
                    &&& final(self).chunk == old(self).chunk
                    &&& final(self).binary == old(self).binary
                    &&& final(self).lines == old(self).lines
                    &&& final(self).error == Some(e)
                },
            },
    {
        match result {
            Ok(chunk) => {
                let (binary, lines) = chunk.lines();
                self.binary = binary;
                self.lines = lines;
                self.chunk = Some(chunk);
                self.error = None;
            },
            Err(error) => self.error = Some(error),
        }
    }
}

/// What a read of the chunk at `offset` of `file` holds: its window and up
/// to three bytes more, or what is left of the file.
pub open spec fn read_at(file: Seq<u8>, offset: int) -> Seq<u8> {
    file.subrange(offset, min_int(offset + CHUNK_BYTES + 3, file.len() as int))
}

/// The bytes of the text window of the chunk at `offset` holding `b`.
pub open spec fn window(offset: u64, b: Seq<u8>) -> Seq<u8> {
    b.subrange(window_start(offset, b), window_end(b))
}

/// Position `i` of `file` is its end or holds no continuation byte.
pub open spec fn starts_char(file: Seq<u8>, i: int) -> bool {
    i == file.len() || (0 <= i < file.len() && !is_continuation_byte(file[i]))
}

proof fn lemma_skip(b: Seq<u8>, from: int, limit: int)
    requires
        0 <= from <= limit <= b.len(),
    ensures
        from <= skip_continuations(b, from, limit) <= limit,
        forall|k: int|
            from <= k < skip_continuations(b, from, limit) ==> is_continuation_byte(#[trigger] b[k]),
        skip_continuations(b, from, limit) < limit ==> !is_continuation_byte(
            b[skip_continuations(b, from, limit)],
        ),
    decreases limit - from,
{
    if from < limit && is_continuation_byte(b[from]) {
        lemma_skip(b, from + 1, limit);
    }
}

proof fn lemma_skip_same(a: Seq<u8>, fa: int, b: Seq<u8>, fb: int, cap: int)
    requires
        0 <= cap,
        0 <= fa,
        fa + cap <= a.len(),
        0 <= fb,
        fb + cap <= b.len(),
        forall|k: int| fa <= k < fa + cap ==> #[trigger] a[k] == b[k - fa + fb],
    ensures
        skip_continuations(a, fa, fa + cap) - fa == skip_continuations(b, fb, fb + cap) - fb,
    decreases cap,
{
    if cap > 0 {
        assert(a[fa] == b[fa - fa + fb]);
        if is_continuation_byte(a[fa]) {
            assert forall|k: int| fa + 1 <= k < fa + 1 + cap - 1 implies #[trigger] a[k] == b[k - (fa + 1) + (fb + 1)] by {
                assert(a[k] == b[k - fa + fb]);
            }
            lemma_skip_same(a, fa + 1, b, fb + 1, cap - 1);
        }
    }
}

proof fn lemma_boundary_near(bytes: Seq<u8>, p: int)
    requires
        valid_utf8(bytes),
        0 <= p <= bytes.len(),
    ensures
        exists|j: int| p <= j <= p + 3 && j <= bytes.len() && #[trigger] is_char_boundary(bytes, j),
    decreases bytes.len(),
{
    if p == 0 {
        assert(is_char_boundary(bytes, 0));
    } else {
        let l = length_of_first_scalar(bytes);
        let rest = pop_first_scalar(bytes);
        assert(1 <= l <= 4);
        assert(l <= bytes.len());
        assert(rest.len() == bytes.len() - l);
        if p <= l {
            assert(is_char_boundary(rest, 0));
            assert(is_char_boundary(bytes, l));
        } else {
            lemma_boundary_near(rest, p - l);
            let j = choose|j: int|
                p - l <= j <= p - l + 3 && j <= rest.len() && #[trigger] is_char_boundary(rest, j);
            assert(is_char_boundary(bytes, j + l));
        }
    }
}

/// In well-formed UTF-8, a character starts at most three bytes after any position.
proof fn lemma_char_starts_near(file: Seq<u8>, p: int)
    requires
        valid_utf8(file),
        0 <= p <= file.len(),
    ensures
        exists|j: int| p <= j <= p + 3 && #[trigger] starts_char(file, j),
{
    lemma_boundary_near(file, p);
    let j = choose|j: int| p <= j <= p + 3 && j <= file.len() && #[trigger] is_char_boundary(file, j);
    if j < file.len() {
        is_char_boundary_iff_not_is_continuation_byte(file, j);
    }
    assert(starts_char(file, j));
}

proof fn lemma_starts_char_boundary(file: Seq<u8>, i: int)
    requires
        valid_utf8(file),
        starts_char(file, i),
    ensures
        is_char_boundary(file, i),
{
    if i == file.len() {
        is_char_boundary_start_end_of_seq(file);
    } else {
        is_char_boundary_iff_not_is_continuation_byte(file, i);
    }
}

/// The bytes between two character starts of well-formed UTF-8 are well formed.
proof fn lemma_valid_range(file: Seq<u8>, a: int, b: int)
    requires
        valid_utf8(file),
        0 <= a <= b <= file.len(),
        starts_char(file, a),
        starts_char(file, b),
    ensures
        valid_utf8(file.subrange(a, b)),
{
    lemma_starts_char_boundary(file, a);
    valid_utf8_split(file, a);
    let rest = file.subrange(a, file.len() as int);
    if b == file.len() {
        assert(rest == file.subrange(a, b));
    } else {
        assert(rest[b - a] == file[b]);
        is_char_boundary_iff_not_is_continuation_byte(rest, b - a);
        valid_utf8_split(rest, b - a);
        assert(rest.subrange(0, b - a) == file.subrange(a, b));
    }
}

/// Decoding the bytes between character starts `a` and `c` decodes the
/// parts before and after character start `b`.
proof fn lemma_decode_join(file: Seq<u8>, a: int, b: int, c: int)
    requires
        valid_utf8(file),
        0 <= a <= b <= c <= file.len(),
        starts_char(file, a),
        starts_char(file, b),
        starts_char(file, c),
    ensures
        valid_utf8(file.subrange(a, b)),
        valid_utf8(file.subrange(b, c)),
        decode_utf8(file.subrange(a, c)) == decode_utf8(file.subrange(a, b)) + decode_utf8(
            file.subrange(b, c),
        ),
{
    lemma_valid_range(file, a, b);
    lemma_valid_range(file, b, c);
    lemma_valid_range(file, a, c);
    let t = file.subrange(a, c);
    if b == c {
        is_char_boundary_start_end_of_seq(t);
    } else {
        assert(t[b - a] == file[b]);
        is_char_boundary_iff_not_is_continuation_byte(t, b - a);
    }
    decode_utf8_split(t, b - a);
    assert(t.subrange(0, b - a) == file.subrange(a, b));
    assert(t.subrange(b - a, t.len() as int) == file.subrange(b, c));
}

/// The start of the text window of the chunk read at `offset` is a character start of the file.
proof fn lemma_window_start(file: Seq<u8>, offset: int)
    requires
        valid_utf8(file),
        0 <= offset < file.len(),
        offset <= u64::MAX,
    ensures
        0 <= window_start(offset as u64, read_at(file, offset)) <= 3,
        window_start(offset as u64, read_at(file, offset)) <= read_at(file, offset).len(),
        starts_char(file, offset + window_start(offset as u64, read_at(file, offset))),
{
    let b = read_at(file, offset);
    let cap = min_int(b.len() as int, 3);
    if offset == 0 {
        is_char_boundary_start_end_of_seq(file);
        is_char_boundary_iff_not_is_continuation_byte(file, 0);
    } else {
        lemma_skip(b, 0, cap);
        let s = skip_continuations(b, 0, cap);
        if s < cap {
            assert(b[s] == file[offset + s]);
        } else if cap == b.len() {
            assert(offset + s == file.len());
        } else {
            lemma_char_starts_near(file, offset);
            let j = choose|j: int| offset <= j <= offset + 3 && #[trigger] starts_char(file, j);
            assert(b[j - offset] == file[j] || j == file.len());
        }
    }
}

/// The end of the text window of the chunk read at `offset` is a character
/// start of the file, and it lies past the window's first `CHUNK_BYTES` bytes
/// exactly by the continuation bytes there.
proof fn lemma_window_end(file: Seq<u8>, offset: int)
    requires
        valid_utf8(file),
        0 <= offset < file.len(),
    ensures
        window_start(0, read_at(file, offset)) == 0,
        min_int(read_at(file, offset).len() as int, CHUNK_BYTES as int) <= window_end(
            read_at(file, offset),
        ) <= read_at(file, offset).len(),
        starts_char(file, offset + window_end(read_at(file, offset))),
{
    let b = read_at(file, offset);
    let from = min_int(b.len() as int, CHUNK_BYTES as int);
    lemma_skip(b, from, b.len() as int);
    let e = skip_continuations(b, from, b.len() as int);
    if e < b.len() {
        assert(b[e] == file[offset + e]);
    } else if b.len() == file.len() - offset {
        assert(offset + e == file.len());
    } else {
        lemma_char_starts_near(file, offset + CHUNK_BYTES);
        let j = choose|j: int|
            offset + CHUNK_BYTES <= j <= offset + CHUNK_BYTES + 3 && #[trigger] starts_char(file, j);
        if j < offset + CHUNK_BYTES + 3 {
            assert(b[j - offset] == file[j]);
        }
    }
}

/// Chunks read at consecutive offsets of a well-formed UTF-8 file neither
/// lose nor repeat text: the window of the first ends where the window of
/// the second starts, both windows are well formed, and their texts joined
/// are the text of the file between them.
pub proof fn consecutive_chunks_meet(file: Seq<u8>, offset: int)
    requires
        valid_utf8(file),
        0 <= offset,
        offset + CHUNK_BYTES < file.len(),
        offset + CHUNK_BYTES <= u64::MAX,
    ensures
        ({
            let first = read_at(file, offset);
            let second = read_at(file, offset + CHUNK_BYTES);
            let next = (offset + CHUNK_BYTES) as u64;
            &&& window_end(first) == CHUNK_BYTES + window_start(next, second)
            &&& valid_utf8(window(offset as u64, first))
            &&& valid_utf8(window(next, second))
            &&& decode_utf8(window(offset as u64, first)) + decode_utf8(window(next, second))
                == decode_utf8(
                file.subrange(
                    offset + window_start(offset as u64, first),
                    offset + CHUNK_BYTES + window_end(second),
                ),
            )
            &&& (offset > 0 && chunk_text(offset as u64, first) is Some && chunk_text(next, second) is Some)
                ==> chunk_text(offset as u64, first).unwrap() + chunk_text(next, second).unwrap()
                == decode_utf8(
                file.subrange(
                    offset + window_start(offset as u64, first),
                    offset + CHUNK_BYTES + window_end(second),
                ),
            )
        }),
{
    let c = CHUNK_BYTES as int;
    let first = read_at(file, offset);
    let second = read_at(file, offset + c);
    let next = (offset + c) as u64;
    let s1 = window_start(offset as u64, first);
    let e1 = window_end(first);
    let s2 = window_start(next, second);
    let e2 = window_end(second);
    lemma_window_start(file, offset);
    lemma_window_end(file, offset);
    lemma_window_start(file, offset + c);
    lemma_window_end(file, offset + c);
    let cap = min_int(file.len() - offset - c, 3);
    assert(first.len() == c + cap);
    assert(min_int(second.len() as int, 3) == cap);
    assert forall|k: int| c <= k < c + cap implies #[trigger] first[k] == second[k - c + 0] by {
        assert(first[k] == file[offset + k]);
        assert(second[k - c] == file[offset + c + (k - c)]);
    }
    lemma_skip_same(first, c, second, 0, cap);
    assert(e1 == c + s2);
    assert(s1 <= e1);
    assert(s2 <= e2) by {
        lemma_skip(second, min_int(second.len() as int, c), second.len() as int);
    }
    lemma_decode_join(file, offset + s1, offset + e1, offset + c + e2);
    assert(window(offset as u64, first) == file.subrange(offset + s1, offset + e1));
    assert(window(next, second) == file.subrange(offset + e1, offset + c + e2));
}

/// The texts of the chunks read at `offset`, `offset + CHUNK_BYTES` and so
/// on to the end of `file`, joined; `None` if one of them shows no text.
pub open spec fn texts_from(file: Seq<u8>, offset: int) -> Option<Seq<char>>
    decreases file.len() - offset,
{
    if offset < 0 || offset >= file.len() || offset > u64::MAX {
        Some(Seq::empty())
    } else {
        match chunk_text(offset as u64, read_at(file, offset)) {
            Some(t) => if offset + CHUNK_BYTES >= file.len() {
                Some(t)
            } else {
                match texts_from(file, offset + CHUNK_BYTES) {
                    Some(rest) => Some(t + rest),
                    None => None,
                }
            },
            None => None,
        }
    }
}

proof fn lemma_unprintable_inside(x: Seq<char>, w: Seq<char>, y: Seq<char>)
    requires
        has_unprintable(w),
    ensures
        has_unprintable(x + w + y),
{
    let i = choose|i: int| 0 <= i < w.len() && is_unprintable(#[trigger] w[i]);
    assert((x + w + y)[x.len() + i] == w[i]);
}

/// The window of the chunk read at `offset` of a well-formed file without
/// unprintable characters: it lies between two character starts, its text
/// is the chunk's, and it ends at the end of the file or where the window
/// of the next chunk starts.
proof fn lemma_window_text(file: Seq<u8>, offset: int)
    requires
        valid_utf8(file),
        !has_unprintable(decode_utf8(file)),
        0 <= offset < file.len(),
        file.len() <= u64::MAX,
    ensures
        ({
            let b = read_at(file, offset);
            let s = offset + window_start(offset as u64, b);
            let e = offset + window_end(b);
            &&& 0 <= s <= e <= file.len()
            &&& window(offset as u64, b) == file.subrange(s, e)
            &&& offset > 0 ==> chunk_text(offset as u64, b) == Some(
                decode_utf8(file.subrange(s, e)),
            )
            &&& offset == 0 ==> s == 0 && chunk_text(offset as u64, b) == Some(
                without_bom(decode_utf8(file.subrange(s, e))),
            )
            &&& offset + CHUNK_BYTES >= file.len() ==> e == file.len()
            &&& offset + CHUNK_BYTES < file.len() ==> e == offset + CHUNK_BYTES + window_start(
                (offset + CHUNK_BYTES) as u64,
                read_at(file, offset + CHUNK_BYTES),
            )
            &&& starts_char(file, s)
            &&& starts_char(file, e)
        }),
{
    let b = read_at(file, offset);
    lemma_window_start(file, offset);
    lemma_window_end(file, offset);
    let ws = window_start(offset as u64, b);
    let we = window_end(b);
    if offset > 0 {
        lemma_skip(b, 0, min_int(b.len() as int, 3));
    }
    let s = offset + ws;
    let e = offset + we;
    assert(window(offset as u64, b) == file.subrange(s, e));
    if offset + CHUNK_BYTES >= file.len() {
        assert(b.len() == file.len() - offset);
        assert(we == b.len());
    } else {
        consecutive_chunks_meet(file, offset);
    }
    lemma_window_start(file, 0);
    lemma_decode_join(file, 0, s, file.len() as int);
    lemma_decode_join(file, s, e, file.len() as int);
    assert(file.subrange(0, file.len() as int) == file);
    let x = decode_utf8(file.subrange(0, s));
    let w = decode_utf8(file.subrange(s, e));
    let y = decode_utf8(file.subrange(e, file.len() as int));
    assert(decode_utf8(file) == x + w + y);
    if has_unprintable(w) {
        lemma_unprintable_inside(x, w, y);
    }
}

proof fn lemma_texts_after(file: Seq<u8>, offset: int)
    requires
        valid_utf8(file),
        !has_unprintable(decode_utf8(file)),
        0 < offset < file.len(),
        file.len() <= u64::MAX,
    ensures
        texts_from(file, offset) == Some(
            decode_utf8(
                file.subrange(
                    offset + window_start(offset as u64, read_at(file, offset)),
                    file.len() as int,
                ),
            ),
        ),
    decreases file.len() - offset,
{
    let b = read_at(file, offset);
    let s = offset + window_start(offset as u64, b);
    let e = offset + window_end(b);
    lemma_window_text(file, offset);
    let t = decode_utf8(file.subrange(s, e));
    if offset + CHUNK_BYTES < file.len() {
        lemma_texts_after(file, offset + CHUNK_BYTES);
        lemma_decode_join(file, s, e, file.len() as int);
    }
}

/// Reading a well-formed UTF-8 file without unprintable characters chunk by
/// chunk, from the start to the end, shows all of its text and nothing
/// twice: a character cut by a chunk boundary shows whole at the end of the
/// earlier chunk and not again in the next. Byte order marks are dropped
/// from the start of the first chunk only.
pub proof fn chunks_show_the_whole_file(file: Seq<u8>)
    requires
        valid_utf8(file),
        !has_unprintable(decode_utf8(file)),
        0 < file.len() <= u64::MAX,
    ensures
        ({
            let e = window_end(read_at(file, 0));
            &&& 0 < e <= file.len()
            &&& decode_utf8(file.subrange(0, e)) + decode_utf8(file.subrange(e, file.len() as int))
                == decode_utf8(file)
            &&& texts_from(file, 0) == Some(
                without_bom(decode_utf8(file.subrange(0, e))) + decode_utf8(
                    file.subrange(e, file.len() as int),
                ),
            )
        }),
{
    let b = read_at(file, 0);
    let e = window_end(b);
    lemma_window_text(file, 0);
    lemma_window_end(file, 0);
    lemma_decode_join(file, 0, e, file.len() as int);
    assert(file.subrange(0, file.len() as int) == file);
    let first = without_bom(decode_utf8(file.subrange(0, e)));
    if CHUNK_BYTES >= file.len() {
        let rest = decode_utf8(file.subrange(e, file.len() as int));
        assert(decode_utf8(file.subrange(0, e)) + rest == decode_utf8(file.subrange(0, e)));
        assert(rest.len() == 0);
        assert(rest == Seq::<char>::empty());
        assert(first + rest == first);
    } else {
        lemma_texts_after(file, CHUNK_BYTES as int);
    }
}

/// A file position as the hexadecimal view writes it: lowercase hexadecimal
/// digits, padded with zeros to at least eight.
pub open spec fn address_text(a: nat) -> Seq<char> {
    pad_left(hexadecimal(a), '0', 8)
}

/// In the hexadecimal view of a binary chunk, line `i` shows the bytes from
/// `16 * i` on, and begins with the file position of the first of them,
/// `offset + 16 * i`, followed by two spaces; there is one line for each
/// sixteen shown bytes, the last one possibly shorter.
pub proof fn hex_rows_start_with_their_address(offset: u64, b: Seq<u8>, i: int)
    requires
        chunk_lines(offset, b).0,
        0 <= i < chunk_lines(offset, b).1.len(),
    ensures
        chunk_lines(offset, b).1.len() * 16 >= shown_bytes(b).len(),
        (chunk_lines(offset, b).1.len() - 1) * 16 < shown_bytes(b).len(),
        16 * i < shown_bytes(b).len(),
        chunk_lines(offset, b).1[i].len() >= address_text((offset + 16 * i) as nat).len() + 2,
        chunk_lines(offset, b).1[i].subrange(
            0,
            address_text((offset + 16 * i) as nat).len() + 2int,
        ) == address_text((offset + 16 * i) as nat) + seq![' ', ' '],
{
    let data = shown_bytes(b);
    let n = data.len();
    let lines = chunk_lines(offset, b).1;
    assert(lines == hex_lines(offset as nat, data));
    assert(lines.len() == (n + 15) / 16);
    assert(lines.len() * 16 >= n) by (nonlinear_arith)
        requires
            lines.len() == (n + 15) / 16,
    ;
    assert((lines.len() - 1) * 16 < n) by (nonlinear_arith)
        requires
            lines.len() == (n + 15) / 16,
            lines.len() >= 1,
    ;
    assert(16 * i < n) by (nonlinear_arith)
        requires
            0 <= i < lines.len(),
            (lines.len() - 1) * 16 < n,
    ;
    let a = address_text((offset + 16 * i) as nat);
    let row = row_bytes(data, i);
    let line = lines[i];
    assert(line == hex_line((offset + 16 * i) as nat, row));
    let rest = pad_right(hex_field(row), ' ', 48) + seq![' '] + row.map_values(
        |x: u8| ascii_char(x),
    );
    assert(line == a + seq![' ', ' '] + rest);
    assert(line.subrange(0, a.len() + 2int) =~= a + seq![' ', ' ']);
}

proof fn lemma_hex_byte(x: u8)
    ensures
        hex_byte(x) == seq![digit_char((x / 16) as nat), digit_char((x % 16) as nat), ' '],
{
    let n = x as nat;
    if n < 16 {
        assert(hexadecimal(n) == seq![digit_char(n)]);
        let p = pad_left(hexadecimal(n), '0', 2);
        assert(p =~= seq!['0', digit_char(n)]);
        assert(digit_char(0) == '0');
    } else {
        assert(n / 16 < 16);
        assert(hexadecimal(n / 16) == seq![digit_char(n / 16)]);
        assert(hexadecimal(n) =~= seq![digit_char(n / 16), digit_char(n % 16)]);
    }
}

proof fn lemma_hex_field(row: Seq<u8>)
    ensures
        hex_field(row).len() == 3 * row.len(),
        forall|j: int|
            #![trigger row[j]]
            0 <= j < row.len() ==> hex_field(row)[3 * j] == digit_char((row[j] / 16) as nat)
                && hex_field(row)[3 * j + 1] == digit_char((row[j] % 16) as nat) && hex_field(
                row,
            )[3 * j + 2] == ' ',
    decreases row.len(),
{
    if row.len() > 0 {
        let rest = row.drop_last();
        lemma_hex_field(rest);
        lemma_hex_byte(row.last());
        let f = hex_field(row);
        let g = hex_field(rest);
        assert(f == g + hex_byte(row.last()));
        assert forall|j: int| #![trigger row[j]] 0 <= j < row.len() implies f[3 * j] == digit_char(
            (row[j] / 16) as nat,
        ) && f[3 * j + 1] == digit_char((row[j] % 16) as nat) && f[3 * j + 2] == ' ' by {
            if j < rest.len() {
                assert(rest[j] == row[j]);
                assert(f[3 * j] == g[3 * j]);
                assert(f[3 * j + 1] == g[3 * j + 1]);
                assert(f[3 * j + 2] == g[3 * j + 2]);
            } else {
                assert(row[j] == row.last());
            }
        }
    }
}

/// In the hexadecimal view of a binary chunk, line `i` shows the next
/// sixteen bytes (or the rest) from `16 * i` on: after the address and two
/// spaces, each byte as two lowercase hexadecimal digits and a space, the
/// column padded with spaces to sixteen bytes' width, a space, and then each
/// byte as itself when it is printable ASCII and as a dot otherwise.
pub proof fn hex_rows_show_their_bytes(offset: u64, b: Seq<u8>, i: int)
    requires
        chunk_lines(offset, b).0,
        0 <= i < chunk_lines(offset, b).1.len(),
    ensures
        ({
            let data = shown_bytes(b);
            let line = chunk_lines(offset, b).1[i];
            let a = address_text((offset + 16 * i) as nat).len() + 2;
            let m = min_int(16, data.len() - 16 * i);
            &&& 1 <= m <= 16
            &&& line.len() == a + 48 + 1 + m
            &&& forall|j: int|
                0 <= j < m ==> line[a + 3 * j] == digit_char((data[16 * i + j] / 16) as nat)
                    && line[a + 3 * j + 1] == digit_char((data[16 * i + j] % 16) as nat)
                    && line[a + 3 * j + 2] == ' ' && line[a + 49 + j] == (if 0x20
                    <= #[trigger] data[16 * i + j] <= 0x7e {
                    (data[16 * i + j] as u32) as char
                } else {
                    '.'
                })
            &&& forall|j: int| 3 * m <= j <= 48 ==> #[trigger] line[a + j] == ' '
        }),
{
    hex_rows_start_with_their_address(offset, b, i);
    let data = shown_bytes(b);
    let lines = chunk_lines(offset, b).1;
    assert(lines == hex_lines(offset as nat, data));
    let line = lines[i];
    let addr = address_text((offset + 16 * i) as nat);
    let a = addr.len() + 2;
    let m = min_int(16, data.len() - 16 * i);
    let row = row_bytes(data, i);
    assert(row.len() == m);
    lemma_hex_field(row);
    let field = hex_field(row);
    let padded = pad_right(field, ' ', 48);
    let chars = row.map_values(|x: u8| ascii_char(x));
    assert(line == hex_line((offset + 16 * i) as nat, row));
    assert(line == addr + seq![' ', ' '] + padded + seq![' '] + chars);
    assert(padded.len() == 48);
    assert forall|j: int| 0 <= j < m implies line[a + 3 * j] == digit_char(
        (data[16 * i + j] / 16) as nat,
    ) && line[a + 3 * j + 1] == digit_char((data[16 * i + j] % 16) as nat) && line[a + 3 * j + 2]
        == ' ' && line[a + 49 + j] == (if 0x20 <= #[trigger] data[16 * i + j] <= 0x7e {
        (data[16 * i + j] as u32) as char
    } else {
        '.'
    }) by {
        assert(row[j] == data[16 * i + j]);
        assert(padded[3 * j] == field[3 * j]);
        assert(padded[3 * j + 1] == field[3 * j + 1]);
        assert(padded[3 * j + 2] == field[3 * j + 2]);
        assert(line[a + 3 * j] == padded[3 * j]);
        assert(line[a + 3 * j + 1] == padded[3 * j + 1]);
        assert(line[a + 3 * j + 2] == padded[3 * j + 2]);
        assert(line[a + 49 + j] == chars[j]);
    }
    assert forall|j: int| 3 * m <= j <= 48 implies #[trigger] line[a + j] == ' ' by {
        if j < 48 {
            assert(line[a + j] == padded[j]);
        }
    }
}

/// A chunk read at `offset` of a file of `size` bytes has a successor
/// exactly when the file goes on past its window.
pub proof fn has_next_iff_file_continues(file: Seq<u8>, offset: int)
    requires
        0 <= offset <= file.len(),
        file.len() <= u64::MAX,
    ensures
        ({
            let b = read_at(file, offset);
            (min_int(offset + CHUNK_BYTES, u64::MAX as int) < file.len() && b.len() >= CHUNK_BYTES)
                <==> offset + CHUNK_BYTES < file.len()
        }),
{
}

} // verus!
