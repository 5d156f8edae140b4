//! A text picture of a store's layout, one character per byte: the sectors
//! on one ruler and the chunks laid over them on another, so that a reader
//! sees where each chunk starts relative to the sector boundaries.
use crate::group::utf8_string;
use crate::header::{ChunkStoreHeader, HeaderView, offset_value};
use vstd::prelude::*;
use vstd::utf8::{
    encode_utf8, encode_utf8_decode_utf8, encode_utf8_valid_utf8, is_ascii_chars,
    is_ascii_chars_encode_utf8,
};

verus! {

pub open spec fn digit_char(d: int) -> char {
    if d == 0 {
        '0'
    } else if d == 1 {
        '1'
    } else if d == 2 {
        '2'
    } else if d == 3 {
        '3'
    } else if d == 4 {
        '4'
    } else if d == 5 {
        '5'
    } else if d == 6 {
        '6'
    } else if d == 7 {
        '7'
    } else if d == 8 {
        '8'
    } else {
        '9'
    }
}

/// `n` written in decimal.
pub open spec fn decimal(n: nat) -> Seq<char>
    decreases n,
{
    if n < 10 {
        seq![digit_char(n as int)]
    } else {
        decimal(n / 10).push(digit_char((n % 10) as int))
    }
}

/// `k` copies of `c`, none where `k` is not positive.
pub open spec fn repeat(c: char, k: int) -> Seq<char> {
    Seq::new(if k > 0 {
        k as nat
    } else {
        0
    }, |_i: int| c)
}

/// A cell `width` characters wide, or as wide as its label needs: a bar,
/// the label, blanks.
pub open spec fn cell(label: Seq<char>, width: int) -> Seq<char> {
    seq!['|'] + label + repeat(' ', width - label.len() - 2) + seq![' ']
}

/// The ruler over `len` characters: a corner, then dashes.
pub open spec fn rule(len: int) -> Seq<char> {
    seq!['+'] + repeat('-', len - 1)
}

/// Where chunk `i` starts in the chunk area.
pub open spec fn chunk_start(h: HeaderView, i: int) -> int {
    offset_value(h.chunk_offsets[i], h.sector_size as int)
}

/// Bytes from the start of chunk `i` to the start of the next one.
pub open spec fn chunk_width(h: HeaderView, i: int) -> nat {
    if chunk_start(h, i + 1) >= chunk_start(h, i) {
        (chunk_start(h, i + 1) - chunk_start(h, i)) as nat
    } else {
        0
    }
}

/// The cell of chunk `i`, labelled with its number and size; the last
/// chunk's size is not known from the index, so it shows `?`.
pub open spec fn chunk_cell(h: HeaderView, i: int) -> Seq<char> {
    if i + 1 < h.chunk_offsets.len() {
        cell(
            seq!['C'] + decimal(i as nat) + seq![' '] + decimal(chunk_width(h, i)) + seq!['B'],
            chunk_width(h, i) as int,
        )
    } else {
        cell(seq!['C'] + decimal(i as nat) + seq![' ', '?', 'B'], 0)
    }
}

/// The cells of the first `k` chunks.
pub open spec fn chunk_cells(h: HeaderView, k: nat) -> Seq<char>
    decreases k,
{
    if k == 0 {
        Seq::empty()
    } else {
        chunk_cells(h, (k - 1) as nat) + chunk_cell(h, k - 1)
    }
}

/// The rulers over the first `k` chunk cells.
pub open spec fn chunk_rules(h: HeaderView, k: nat) -> Seq<char>
    decreases k,
{
    if k == 0 {
        Seq::empty()
    } else {
        chunk_rules(h, (k - 1) as nat) + rule(chunk_cell(h, k - 1).len() as int)
    }
}

pub open spec fn sector_cell(sector_size: int, i: nat) -> Seq<char> {
    cell(decimal(i), sector_size)
}

/// The cells of the first `k` sectors.
pub open spec fn sector_cells(sector_size: int, k: nat) -> Seq<char>
    decreases k,
{
    if k == 0 {
        Seq::empty()
    } else {
        sector_cells(sector_size, (k - 1) as nat) + sector_cell(sector_size, (k - 1) as nat)
    }
}

/// The rulers over the first `k` sector cells.
pub open spec fn sector_rules(sector_size: int, k: nat) -> Seq<char>
    decreases k,
{
    if k == 0 {
        Seq::empty()
    } else {
        sector_rules(sector_size, (k - 1) as nat) + rule(
            sector_cell(sector_size, (k - 1) as nat).len() as int,
        )
    }
}

/// At most the first `len` characters of `s`.
pub open spec fn cut(s: Seq<char>, len: nat) -> Seq<char> {
    if s.len() <= len {
        s
    } else {
        s.subrange(0, len as int)
    }
}

/// Sectors drawn: those up to the one the last chunk starts in, but no
/// more than the chunk line can show (every cell is at least two wide).
pub open spec fn sectors_drawn(h: HeaderView) -> nat {
    let n = h.chunk_offsets.len();
    let shown = chunk_cells(h, n).len();
    if n == 0 {
        0
    } else if h.chunk_offsets[n - 1].sector_index + 1 <= shown {
        (h.chunk_offsets[n - 1].sector_index + 1) as nat
    } else {
        shown
    }
}

pub open spec fn indent() -> Seq<char> {
    seq!['\n', ' ', ' ', ' ', ' ', ' ', ' ', ' ', ' ', ' ']
}

/// The whole picture: the sector size, the sector ruler and cells cut to
/// the width of the chunk line, then the chunk cells between two rulers.
pub open spec fn chunk_sector_diagram(h: HeaderView) -> Seq<char> {
    let n = h.chunk_offsets.len();
    let shown = chunk_cells(h, n).len();
    let k = sectors_drawn(h);
    seq!['S', 'e', 'c', 't', 'o', 'r', ' ', 's', 'i', 'z', 'e', ':', ' '] + decimal(
        h.sector_size as nat,
    ) + seq!['B'] + indent() + cut(sector_rules(h.sector_size as int, k), shown) + seq![
        '\n',
        'S',
        'e',
        'c',
        't',
        'o',
        'r',
        's',
        ':',
        ' ',
    ] + cut(sector_cells(h.sector_size as int, k), shown) + indent() + chunk_rules(h, n) + seq![
        '\n',
        'C',
        'h',
        'u',
        'n',
        'k',
        's',
        ':',
        ' ',
        ' ',
    ] + chunk_cells(h, n) + indent() + chunk_rules(h, n)
}

fn digit(d: u64) -> (r: char)
    requires
        d < 10,
    ensures
        r == digit_char(d as int),
{
    if d == 0 {
        '0'
    } else if d == 1 {
        '1'
    } else if d == 2 {
        '2'
    } else if d == 3 {
        '3'
    } else if d == 4 {
        '4'
    } else if d == 5 {
        '5'
    } else if d == 6 {
        '6'
    } else if d == 7 {
        '7'
    } else if d == 8 {
        '8'
    } else {
        '9'
    }
}

fn push_decimal(out: &mut Vec<char>, n: u64)
    ensures
        final(out)@ == old(out)@ + decimal(n as nat),
    decreases n,
{
    if n >= 10 {
        push_decimal(out, n / 10);
    }
    out.push(digit(n % 10));
    proof {
        if n >= 10 {
            assert(old(out)@ + decimal(n as nat) =~= old(out)@ + decimal((n / 10) as nat) + seq![
                digit_char((n % 10) as int),
            ]);
        }
    }
    assert(final(out)@ =~= old(out)@ + decimal(n as nat));
}

fn push_repeat(out: &mut Vec<char>, c: char, k: u64)
    ensures
        final(out)@ == old(out)@ + repeat(c, k as int),
{
    let ghost start = out@;
    let mut i: u64 = 0;
    while i < k
        invariant
            i <= k,
            out@ == start + repeat(c, i as int),
        decreases k - i,
    {
        out.push(c);
        i = i + 1;
        assert(out@ =~= start + repeat(c, i as int));
    }
}

/// Appends a cell with the given label, `width` wide or as its label needs.
fn push_cell(out: &mut Vec<char>, label: &Vec<char>, width: u64)
    ensures
        final(out)@ == old(out)@ + cell(label@, width as int),
{
    let ghost start = out@;
    out.push('|');
    push_chars(out, label.as_slice());
    let pad: u64 = if width >= 2 && label.len() as u64 <= width - 2 {
        width - 2 - label.len() as u64
    } else {
        0
    };
    push_repeat(out, ' ', pad);
    out.push(' ');
    assert(repeat(' ', pad as int) =~= repeat(' ', width - label@.len() - 2));
    assert(out@ =~= start + cell(label@, width as int));
}

fn push_rule(out: &mut Vec<char>, len: usize)
    requires
        len >= 1,
    ensures
        final(out)@ == old(out)@ + rule(len as int),
{
    let ghost start = out@;
    out.push('+');
    push_repeat(out, '-', (len - 1) as u64);
    assert(out@ =~= start + rule(len as int));
}

fn push_prefix(out: &mut Vec<char>, s: &Vec<char>, len: usize)
    ensures
        final(out)@ == old(out)@ + cut(s@, len as nat),
{
    let ghost start = out@;
    let end = if s.len() <= len {
        s.len()
    } else {
        len
    };
    let mut i: usize = 0;
    while i < end
        invariant
            i <= end,
            end <= s@.len(),
            end == if s@.len() <= len {
                s@.len()
            } else {
                len as nat
            },
            out@ == start + s@.subrange(0, i as int),
        decreases end - i,
    {
        out.push(s[i]);
        i = i + 1;
        assert(out@ =~= start + s@.subrange(0, i as int));
    }
    assert(s@.subrange(0, end as int) =~= cut(s@, len as nat));
}

fn push_indent(out: &mut Vec<char>)
    ensures
        final(out)@ == old(out)@ + indent(),
{
    let ghost start = out@;
    out.push('\n');
    push_repeat(out, ' ', 9);
    assert(out@ =~= start + indent());
}

/// Where chunk `i` starts, in a type wide enough for any offset record.
fn start_of(h: &ChunkStoreHeader, i: usize) -> (r: u64)
    requires
        i < h@.chunk_offsets.len(),
    ensures
        r == chunk_start(h@, i as int),
{
    let o = h.chunk_offsets[i];
    assert((o.sector_index as int) * (h.sector_size as int) <= 0xffff_ffffint * 0xffffint)
        by (nonlinear_arith)
        requires
            o.sector_index <= 0xffff_ffff,
            h.sector_size <= 0xffff,
            o.sector_index >= 0,
            h.sector_size >= 0,
    ;
    o.sector_index as u64 * h.sector_size as u64 + o.sector_offset as u64
}

/// The text of a chunk cell's label.
fn chunk_label(h: &ChunkStoreHeader, i: usize) -> (r: (Vec<char>, u64))
    requires
        i < h@.chunk_offsets.len(),
    ensures
        cell(r.0@, r.1 as int) == chunk_cell(h@, i as int),
        is_ascii_chars(r.0@),
{
    proof {
        lemma_decimal_ascii(i as nat);
    }
    let mut label: Vec<char> = Vec::new();
    label.push('C');
    push_decimal(&mut label, i as u64);
    label.push(' ');
    if i < h.chunk_offsets.len() - 1 {
        let a = start_of(h, i);
        let b = start_of(h, i + 1);
        let w: u64 = if b >= a {
            b - a
        } else {
            0
        };
        push_decimal(&mut label, w);
        label.push('B');
        proof {
            lemma_decimal_ascii(w as nat);
        }
        assert(label@ =~= seq!['C'] + decimal(i as nat) + seq![' '] + decimal(chunk_width(h@, i as int))
            + seq!['B']);
        (label, w)
    } else {
        label.push('?');
        label.push('B');
        assert(label@ =~= seq!['C'] + decimal(i as nat) + seq![' ', '?', 'B']);
        (label, 0)
    }
}

proof fn lemma_decimal_ascii(n: nat)
    ensures
        is_ascii_chars(decimal(n)),
        decimal(n).len() >= 1,
    decreases n,
{
    if n >= 10 {
        lemma_decimal_ascii(n / 10);
    }
}

proof fn lemma_cell_ascii(label: Seq<char>, width: int)
    requires
        is_ascii_chars(label),
    ensures
        is_ascii_chars(cell(label, width)),
        cell(label, width).len() >= 2,
{
}

/// The string of an ASCII text.
fn ascii_string(chars: &Vec<char>) -> (r: String)
    requires
        is_ascii_chars(chars@),
    ensures
        r@ == chars@,
{
    let mut bytes: Vec<u8> = Vec::with_capacity(chars.len());
    let mut i: usize = 0;
    proof {
        is_ascii_chars_encode_utf8(chars@);
    }
    while i < chars.len()
        invariant
            i <= chars@.len(),
            is_ascii_chars(chars@),
            chars@.len() == encode_utf8(chars@).len(),
            forall|k: int| 0 <= k < chars@.len() ==> chars@[k] as u8 == encode_utf8(chars@)[k],
            bytes@ == encode_utf8(chars@).subrange(0, i as int),
        decreases chars@.len() - i,
    {
        let c = chars[i];
        assert('\0' <= chars@[i as int] <= '\u{7f}');
        bytes.push(c as u8);
        i = i + 1;
        assert(bytes@ =~= encode_utf8(chars@).subrange(0, i as int));
    }
    proof {
        assert(bytes@ =~= encode_utf8(chars@));
        encode_utf8_valid_utf8(chars@);
        encode_utf8_decode_utf8(chars@);
    }
    match utf8_string(bytes) {
        Some(s) => s,
        None => String::new(),
    }
}

proof fn lemma_ascii_concat(a: Seq<char>, b: Seq<char>)
    requires
        is_ascii_chars(a),
        is_ascii_chars(b),
    ensures
        is_ascii_chars(a + b),
{
    assert forall|i: int| 0 <= i < (a + b).len() implies '\0' <= #[trigger] (a + b)[i] <= '\u{7f}' by {
        if i < a.len() {
            assert((a + b)[i] == a[i]);
        } else {
            assert((a + b)[i] == b[i - a.len()]);
        }
    }
}

proof fn lemma_cut_ascii(s: Seq<char>, len: nat)
    requires
        is_ascii_chars(s),
    ensures
        is_ascii_chars(cut(s, len)),
{
    assert forall|i: int| 0 <= i < cut(s, len).len() implies '\0' <= #[trigger] cut(s, len)[i]
        <= '\u{7f}' by {
        assert(cut(s, len)[i] == s[i]);
    }
}

/// The chunk cells and the rulers over them.
fn chunk_lines(h: &ChunkStoreHeader) -> (r: (Vec<char>, Vec<char>))
    ensures
        r.0@ == chunk_cells(h@, h@.chunk_offsets.len()),
        r.1@ == chunk_rules(h@, h@.chunk_offsets.len()),
        is_ascii_chars(r.0@),
        is_ascii_chars(r.1@),
{
    let n = h.chunk_offsets.len();
    let mut cells: Vec<char> = Vec::new();
    let mut rules: Vec<char> = Vec::new();
    let mut i: usize = 0;
    while i < n
        invariant
            i <= n,
            n == h@.chunk_offsets.len(),
            cells@ == chunk_cells(h@, i as nat),
            rules@ == chunk_rules(h@, i as nat),
            is_ascii_chars(cells@),
            is_ascii_chars(rules@),
        decreases n - i,
    {
        let (label, width) = chunk_label(h, i);
        let ghost before = cells@;
        let ghost rules_before = rules@;
        let start = cells.len();
        push_cell(&mut cells, &label, width);
        proof {
            lemma_cell_ascii(label@, width as int);
            lemma_ascii_concat(before, cell(label@, width as int));
        }
        let cell_len = cells.len() - start;
        assert(cell_len == chunk_cell(h@, i as int).len());
        push_rule(&mut rules, cell_len);
        proof {
            lemma_ascii_concat(rules_before, rule(cell_len as int));
        }
        i = i + 1;
    }
    (cells, rules)
}

/// The cells of the first `drawn` sectors and the rulers over them.
fn sector_lines(sector_size: u16, drawn: u64) -> (r: (Vec<char>, Vec<char>))
    ensures
        r.0@ == sector_cells(sector_size as int, drawn as nat),
        r.1@ == sector_rules(sector_size as int, drawn as nat),
        is_ascii_chars(r.0@),
        is_ascii_chars(r.1@),
{
    let ss = sector_size as u64;
    let mut cells: Vec<char> = Vec::new();
    let mut rules: Vec<char> = Vec::new();
    let mut j: u64 = 0;
    while j < drawn
        invariant
            j <= drawn,
            ss == sector_size,
            cells@ == sector_cells(ss as int, j as nat),
            rules@ == sector_rules(ss as int, j as nat),
            is_ascii_chars(cells@),
            is_ascii_chars(rules@),
        decreases drawn - j,
    {
        let mut label: Vec<char> = Vec::new();
        push_decimal(&mut label, j);
        let ghost before = cells@;
        let ghost rules_before = rules@;
        proof {
            lemma_decimal_ascii(j as nat);
            assert(label@ =~= decimal(j as nat));
            lemma_cell_ascii(label@, ss as int);
            lemma_ascii_concat(before, cell(label@, ss as int));
        }
        let start = cells.len();
        push_cell(&mut cells, &label, ss);
        let cell_len = cells.len() - start;
        push_rule(&mut rules, cell_len);
        proof {
            lemma_ascii_concat(rules_before, rule(cell_len as int));
        }
        j = j + 1;
    }
    (cells, rules)
}

fn push_chars(out: &mut Vec<char>, s: &[char])
    ensures
        final(out)@ == old(out)@ + s@,
{
    let ghost start = out@;
    let mut i: usize = 0;
    while i < s.len()
        invariant
            i <= s@.len(),
            out@ == start + s@.subrange(0, i as int),
        decreases s@.len() - i,
    {
        out.push(s[i]);
        i = i + 1;
        assert(out@ =~= start + s@.subrange(0, i as int));
    }
    assert(s@.subrange(0, s@.len() as int) =~= s@);
}

impl ChunkStoreHeader {
    /// A picture of the store's layout, one character per byte: a ruler and
    /// numbered cells for the sectors, then a ruler and a cell per chunk
    /// labelled with its number and size (`?` for the last, whose end the
    /// index does not record). A label wider than its chunk widens the cell.
    #[verifier::rlimit(50)]
    pub fn string_format_chunk_sector_ratio(&self) -> (r: String)
        ensures
            r@ == chunk_sector_diagram(self@),
    {
        let h = self;
        let n = h.chunk_offsets.len();
        let (cells, rules) = chunk_lines(h);
        let shown = cells.len();
        let drawn: u64 = if n == 0 {
            0
        } else if h.chunk_offsets[n - 1].sector_index as u64 + 1 <= shown as u64 {
            h.chunk_offsets[n - 1].sector_index as u64 + 1
        } else {
            shown as u64
        };
        assert(drawn == sectors_drawn(h@));
        let (scells, srules) = sector_lines(h.sector_size, drawn);
        let mut out: Vec<char> = Vec::new();
        push_chars(&mut out, &['S', 'e', 'c', 't', 'o', 'r', ' ', 's', 'i', 'z', 'e', ':', ' ']);
        push_decimal(&mut out, h.sector_size as u64);
        out.push('B');
        push_indent(&mut out);
        push_prefix(&mut out, &srules, shown);
        push_chars(&mut out, &['\n', 'S', 'e', 'c', 't', 'o', 'r', 's', ':', ' ']);
        push_prefix(&mut out, &scells, shown);
        push_indent(&mut out);
        push_chars(&mut out, rules.as_slice());
        push_chars(&mut out, &['\n', 'C', 'h', 'u', 'n', 'k', 's', ':', ' ', ' ']);
        push_chars(&mut out, cells.as_slice());
        push_indent(&mut out);
        push_chars(&mut out, rules.as_slice());
        proof {
            assert(out@ =~= chunk_sector_diagram(h@));
            lemma_decimal_ascii(h.sector_size as nat);
            lemma_cut_ascii(scells@, shown as nat);
            lemma_cut_ascii(srules@, shown as nat);
            assert forall|i: int| 0 <= i < out@.len() implies '\0' <= #[trigger] out@[i] <= '\u{7f}' by {
                assert(is_ascii_chars(cells@));
            }
        }
        ascii_string(&out)
    }
}

} // verus!
