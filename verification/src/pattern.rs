//! The text form of a pattern: rows on lines, cells separated by single
//! spaces, `#` for a live cell and any other token for a dead one.

use vstd::prelude::*;
use crate::board::Board;

verus! {

/// Whether `c` has the Unicode property `White_Space`.
pub open spec fn is_whitespace(c: char) -> bool {
    let code = c as u32;
    ||| 0x09 <= code <= 0x0D
    ||| code == 0x20
    ||| code == 0x85
    ||| code == 0xA0
    ||| code == 0x1680
    ||| 0x2000 <= code <= 0x200A
    ||| code == 0x2028
    ||| code == 0x2029
    ||| code == 0x202F
    ||| code == 0x205F
    ||| code == 0x3000
}

/// `s` without the whitespace at its start.
pub open spec fn trim_start(s: Seq<char>) -> Seq<char>
    decreases s.len(),
{
    if s.len() > 0 && is_whitespace(s.first()) {
        trim_start(s.drop_first())
    } else {
        s
    }
}

/// `s` without the whitespace at its end.
pub open spec fn trim_end(s: Seq<char>) -> Seq<char>
    decreases s.len(),
{
    if s.len() > 0 && is_whitespace(s.last()) {
        trim_end(s.drop_last())
    } else {
        s
    }
}

/// `s` without the whitespace at either end.
pub open spec fn trim(s: Seq<char>) -> Seq<char> {
    trim_end(trim_start(s))
}

/// The pieces of `s` between the occurrences of `sep`, in order. There is
/// one piece more than there are separators, so some pieces may be empty.
pub open spec fn split(s: Seq<char>, sep: char) -> Seq<Seq<char>>
    decreases s.len(),
{
    if s.len() == 0 {
        seq![Seq::empty()]
    } else {
        let before = split(s.drop_last(), sep);
        if s.last() == sep {
            before.push(Seq::empty())
        } else {
            before.drop_last().push(before.last().push(s.last()))
        }
    }
}

/// The cells that one line of a pattern describes: a token is a live cell
/// exactly if it is the single character `#`.
pub open spec fn row_of(line: Seq<char>) -> Seq<bool> {
    split(trim(line), ' ').map_values(|token: Seq<char>| token == seq!['#'])
}

/// The rows of cells that a pattern text describes.
pub open spec fn rows_of(text: Seq<char>) -> Seq<Seq<bool>> {
    split(trim(text), '\n').map_values(|line: Seq<char>| row_of(line))
}

/// Whether the rows all have the same number of cells and fit on a grid of
/// the given size.
pub open spec fn fits(rows: Seq<Seq<bool>>, width: int, height: int) -> bool {
    &&& rows.len() <= height
    &&& forall|y: int| 0 <= y < rows.len() ==> (#[trigger] rows[y]).len() <= width
    &&& forall|y: int| 0 <= y < rows.len() ==> (#[trigger] rows[y]).len() == rows[0].len()
}

/// The coordinates of the live cells in `rows`, the first row at `y == 0`
/// and the first cell of a row at `x == 0`.
pub open spec fn live_of(rows: Seq<Seq<bool>>) -> Set<(int, int)> {
    Set::new(|c: (int, int)| 0 <= c.1 < rows.len() && 0 <= c.0 < rows[c.1].len() && rows[c.1][c.0])
}

/// The token that stands for a cell: `#` for a live cell, and for a dead one
/// the number of its live neighbours as a digit.
pub open spec fn token_of(alive: bool, neighbours: nat) -> char {
    if alive {
        '#'
    } else if neighbours == 0 {
        '0'
    } else if neighbours == 1 {
        '1'
    } else if neighbours == 2 {
        '2'
    } else if neighbours == 3 {
        '3'
    } else if neighbours == 4 {
        '4'
    } else if neighbours == 5 {
        '5'
    } else if neighbours == 6 {
        '6'
    } else if neighbours == 7 {
        '7'
    } else {
        '8'
    }
}

/// The text of the first `n` cells of row `y`: each token with a space
/// behind it.
pub open spec fn row_text(board: Board, y: int, n: nat) -> Seq<char>
    decreases n,
{
    if n == 0 {
        Seq::empty()
    } else {
        row_text(board, y, (n - 1) as nat) + seq![
            token_of(board.alive(n - 1, y), board.live_neighbours(n - 1, y)),
            ' ',
        ]
    }
}

/// The text of the first `n` rows of a board: an empty line, then each row
/// on a line of its own.
pub open spec fn rows_text(board: Board, n: nat) -> Seq<char>
    decreases n,
{
    if n == 0 {
        seq!['\n']
    } else {
        rows_text(board, (n - 1) as nat) + row_text(board, n - 1, board.width) + seq!['\n']
    }
}

/// The text of a board. Read as a pattern, it describes the board's live
/// cells.
pub open spec fn text_of(board: Board) -> Seq<char> {
    rows_text(board, board.height)
}

/// The rows of flags that `rows` holds.
pub open spec fn flags_of(rows: Seq<Vec<bool>>) -> Seq<Seq<bool>> {
    rows.map_values(|row: Vec<bool>| row@)
}

/// The pieces of text that `pieces` holds.
pub open spec fn pieces_of(pieces: Seq<Vec<char>>) -> Seq<Seq<char>> {
    pieces.map_values(|piece: Vec<char>| piece@)
}

/// Whether `c` is a whitespace character.
pub fn is_whitespace_char(c: char) -> (r: bool)
    ensures
        r == is_whitespace(c),
{
    let code: u32 = c as u32;
    (0x09 <= code && code <= 0x0D) || code == 0x20 || code == 0x85 || code == 0xA0 || code
        == 0x1680 || (0x2000 <= code && code <= 0x200A) || code == 0x2028 || code == 0x2029 || code
        == 0x202F || code == 0x205F || code == 0x3000
}

/// The characters of `text`.
pub fn chars_of(text: &str) -> (chars: Vec<char>)
    ensures
        chars@ == text@,
{
    let mut chars: Vec<char> = Vec::new();
    for c in it: text.chars()
        invariant
            it.seq() == text@,
            chars@ == it.seq().take(it.index() as int),
    {
        chars.push(c);
    }
    chars
}

/// A copy of `s` without the whitespace at either end.
pub fn trim_chars(s: &Vec<char>) -> (r: Vec<char>)
    ensures
        r@ == trim(s@),
{
    let n = s.len();
    let mut lo: usize = 0;
    assert(s@.subrange(0, n as int) =~= s@);
    while lo < n && is_whitespace_char(s[lo])
        invariant
            lo <= n,
            n == s.len(),
            trim_start(s@) == trim_start(s@.subrange(lo as int, n as int)),
        decreases n - lo,
    {
        assert(s@.subrange(lo as int, n as int).drop_first() =~= s@.subrange(lo + 1, n as int));
        lo = lo + 1;
    }
    let ghost body = s@.subrange(lo as int, n as int);
    assert(trim_start(s@) == body);
    let mut hi: usize = n;
    while hi > lo && is_whitespace_char(s[hi - 1])
        invariant
            lo <= hi <= n,
            n == s.len(),
            body == s@.subrange(lo as int, n as int),
            trim_end(body) == trim_end(s@.subrange(lo as int, hi as int)),
        decreases hi - lo,
    {
        assert(s@.subrange(lo as int, hi as int).drop_last() =~= s@.subrange(lo as int, hi - 1));
        hi = hi - 1;
    }
    assert(trim_end(body) == s@.subrange(lo as int, hi as int));
    let mut r: Vec<char> = Vec::new();
    let mut i: usize = lo;
    while i < hi
        invariant
            lo <= i <= hi <= n,
            n == s.len(),
            r@ == s@.subrange(lo as int, i as int),
        decreases hi - i,
    {
        r.push(s[i]);
        assert(s@.subrange(lo as int, i as int).push(s@[i as int]) =~= s@.subrange(
            lo as int,
            i + 1,
        ));
        i = i + 1;
    }
    r
}

/// The pieces of `s` between the occurrences of `sep`.
pub fn split_chars(s: &Vec<char>, sep: char) -> (pieces: Vec<Vec<char>>)
    ensures
        pieces_of(pieces@) == split(s@, sep),
{
    let n = s.len();
    let mut pieces: Vec<Vec<char>> = Vec::new();
    let mut current: Vec<char> = Vec::new();
    let mut i: usize = 0;
    assert(s@.take(0) =~= Seq::empty());
    while i < n
        invariant
            i <= n,
            n == s.len(),
            pieces.len() + 1 == split(s@.take(i as int), sep).len(),
            forall|j: int|
                0 <= j < pieces.len() ==> (#[trigger] pieces@[j])@ == split(
                    s@.take(i as int),
                    sep,
                )[j],
            current@ == split(s@.take(i as int), sep).last(),
        decreases n - i,
    {
        let c = s[i];
        proof {
            assert(s@.take(i + 1).drop_last() =~= s@.take(i as int));
            assert(s@.take(i + 1).last() == c);
        }
        if c == sep {
            pieces.push(current);
            current = Vec::new();
        } else {
            current.push(c);
        }
        i = i + 1;
    }
    assert(s@.take(n as int) =~= s@);
    pieces.push(current);
    assert(pieces_of(pieces@) =~= split(s@, sep));
    pieces
}

/// The cells that one line of a pattern describes.
pub fn parse_row(line: &Vec<char>) -> (flags: Vec<bool>)
    ensures
        flags@ == row_of(line@),
{
    let trimmed = trim_chars(line);
    let tokens = split_chars(&trimmed, ' ');
    let ghost pieces = split(trim(line@), ' ');
    let mut flags: Vec<bool> = Vec::new();
    let mut i: usize = 0;
    while i < tokens.len()
        invariant
            i <= tokens.len(),
            pieces_of(tokens@) == pieces,
            pieces == split(trim(line@), ' '),
            flags.len() == i,
            forall|j: int| 0 <= j < i ==> #[trigger] flags@[j] == row_of(line@)[j],
        decreases tokens.len() - i,
    {
        let token = &tokens[i];
        let live = token.len() == 1 && token[0] == '#';
        proof {
            assert(pieces_of(tokens@)[i as int] == token@);
            if live {
                assert(token@ =~= seq!['#']);
            }
        }
        flags.push(live);
        i = i + 1;
    }
    assert(flags@ =~= row_of(line@));
    flags
}

/// The rows of cells that a pattern text describes.
pub fn parse_pattern(text: &str) -> (rows: Vec<Vec<bool>>)
    ensures
        flags_of(rows@) == rows_of(text@),
{
    let chars = chars_of(text);
    let trimmed = trim_chars(&chars);
    let lines = split_chars(&trimmed, '\n');
    let ghost pieces = split(trim(text@), '\n');
    let mut rows: Vec<Vec<bool>> = Vec::new();
    let mut y: usize = 0;
    while y < lines.len()
        invariant
            y <= lines.len(),
            pieces_of(lines@) == pieces,
            pieces == split(trim(text@), '\n'),
            rows.len() == y,
            forall|j: int| 0 <= j < y ==> (#[trigger] rows@[j])@ == rows_of(text@)[j],
        decreases lines.len() - y,
    {
        proof {
            assert(pieces_of(lines@)[y as int] == lines@[y as int]@);
        }
        let row = parse_row(&lines[y]);
        rows.push(row);
        y = y + 1;
    }
    assert(flags_of(rows@) =~= rows_of(text@));
    rows
}

/// Whether the rows all have the same number of cells and fit on a grid of
/// the given size.
pub fn pattern_fits(rows: &Vec<Vec<bool>>, width: usize, height: usize) -> (r: bool)
    ensures
        r == fits(flags_of(rows@), width as int, height as int),
{
    if rows.len() > height {
        return false;
    }
    let ghost flags = flags_of(rows@);
    let mut y: usize = 0;
    while y < rows.len()
        invariant
            y <= rows.len(),
            flags == flags_of(rows@),
            forall|j: int| 0 <= j < y ==> (#[trigger] flags[j]).len() <= width,
            forall|j: int| 0 <= j < y ==> (#[trigger] flags[j]).len() == flags[0].len(),
        decreases rows.len() - y,
    {
        assert(flags[y as int] == rows@[y as int]@);
        assert(flags[0] == rows@[0]@);
        if rows[y].len() > width || rows[y].len() != rows[0].len() {
            return false;
        }
        y = y + 1;
    }
    true
}

/// The pieces with `sep` between each two of them.
pub open spec fn join(pieces: Seq<Seq<char>>, sep: char) -> Seq<char>
    decreases pieces.len(),
{
    if pieces.len() == 0 {
        Seq::empty()
    } else if pieces.len() == 1 {
        pieces[0]
    } else {
        join(pieces.drop_last(), sep).push(sep) + pieces.last()
    }
}

/// No piece of a split text holds the separator, and the pieces with the
/// separator between them are the text again.
pub proof fn lemma_split_is_exact(s: Seq<char>, sep: char)
    ensures
        split(s, sep).len() >= 1,
        forall|i: int, j: int|
            0 <= i < split(s, sep).len() && 0 <= j < split(s, sep)[i].len() ==> split(
                s,
                sep,
            )[i][j] != sep,
        join(split(s, sep), sep) == s,
    decreases s.len(),
{
    if s.len() == 0 {
        assert(join(split(s, sep), sep) =~= s);
    } else {
        let before = split(s.drop_last(), sep);
        let pieces = split(s, sep);
        lemma_split_is_exact(s.drop_last(), sep);
        assert(s =~= s.drop_last().push(s.last()));
        if s.last() == sep {
            assert(pieces.drop_last() =~= before);
            assert(join(pieces, sep) =~= s);
        } else {
            assert forall|i: int, j: int|
                0 <= i < pieces.len() && 0 <= j < pieces[i].len() implies pieces[i][j] != sep by {
                if i < pieces.len() - 1 {
                    assert(pieces[i] == before[i]);
                } else if j < before.last().len() {
                    assert(pieces[i][j] == before.last()[j]);
                }
            }
            if before.len() == 1 {
                assert(join(pieces, sep) =~= s);
            } else {
                assert(pieces.drop_last() =~= before.drop_last());
                assert(join(pieces, sep) =~= join(before, sep).push(s.last()));
            }
        }
    }
}

/// What trimming removes is whitespace, and what it leaves has none at
/// either end: `trim(s)` is the part of `s` between two places, everything
/// outside them is whitespace, and the part is empty or starts and ends
/// with a character that is not.
pub proof fn lemma_trim_is_exact(s: Seq<char>) -> (bounds: (int, int))
    ensures
        0 <= bounds.0 <= bounds.1 <= s.len(),
        trim(s) == s.subrange(bounds.0, bounds.1),
        forall|i: int| 0 <= i < bounds.0 || bounds.1 <= i < s.len() ==> is_whitespace(s[i]),
        bounds.0 < bounds.1 ==> !is_whitespace(s[bounds.0]) && !is_whitespace(s[bounds.1 - 1]),
{
    let lo = lemma_trim_start_is_exact(s);
    let rest = s.subrange(lo, s.len() as int);
    let hi = lemma_trim_end_is_exact(rest);
    assert(rest.subrange(0, hi) =~= s.subrange(lo, lo + hi));
    assert forall|i: int| lo + hi <= i < s.len() implies is_whitespace(s[i]) by {
        assert(rest[i - lo] == s[i]);
    }
    if hi > 0 {
        assert(rest[hi - 1] == s[lo + hi - 1]);
        assert(rest[0] == s[lo]);
    }
    (lo, lo + hi)
}

/// `trim_start(s)` is `s` from the first character that is not whitespace.
pub proof fn lemma_trim_start_is_exact(s: Seq<char>) -> (lo: int)
    ensures
        0 <= lo <= s.len(),
        trim_start(s) == s.subrange(lo, s.len() as int),
        forall|i: int| 0 <= i < lo ==> is_whitespace(s[i]),
        lo < s.len() ==> !is_whitespace(s[lo]),
    decreases s.len(),
{
    if s.len() > 0 && is_whitespace(s.first()) {
        let rest = s.drop_first();
        let lo = lemma_trim_start_is_exact(rest);
        assert(rest.subrange(lo, rest.len() as int) =~= s.subrange(lo + 1, s.len() as int));
        assert forall|i: int| 0 <= i < lo + 1 implies is_whitespace(s[i]) by {
            if i > 0 {
                assert(rest[i - 1] == s[i]);
            }
        }
        if lo < rest.len() {
            assert(rest[lo] == s[lo + 1]);
        }
        lo + 1
    } else {
        assert(s.subrange(0, s.len() as int) =~= s);
        0
    }
}

/// `trim_end(s)` is `s` up to the last character that is not whitespace.
pub proof fn lemma_trim_end_is_exact(s: Seq<char>) -> (hi: int)
    ensures
        0 <= hi <= s.len(),
        trim_end(s) == s.subrange(0, hi),
        forall|i: int| hi <= i < s.len() ==> is_whitespace(s[i]),
        hi > 0 ==> !is_whitespace(s[hi - 1]),
    decreases s.len(),
{
    if s.len() > 0 && is_whitespace(s.last()) {
        let rest = s.drop_last();
        let hi = lemma_trim_end_is_exact(rest);
        assert(rest.subrange(0, hi) =~= s.subrange(0, hi));
        assert forall|i: int| hi <= i < s.len() implies is_whitespace(s[i]) by {
            if i < s.len() - 1 {
                assert(rest[i] == s[i]);
            }
        }
        if hi > 0 {
            assert(rest[hi - 1] == s[hi - 1]);
        }
        hi
    } else {
        assert(s.subrange(0, s.len() as int) =~= s);
        s.len() as int
    }
}

/// Splitting always gives at least one piece.
pub proof fn lemma_split_nonempty(s: Seq<char>, sep: char)
    ensures
        split(s, sep).len() >= 1,
    decreases s.len(),
{
    if s.len() > 0 {
        lemma_split_nonempty(s.drop_last(), sep);
    }
}

/// Text without a separator, put behind `s`, lengthens the last piece of
/// `s` and leaves the other pieces as they are.
pub proof fn lemma_split_append(s: Seq<char>, r: Seq<char>, sep: char)
    requires
        forall|i: int| 0 <= i < r.len() ==> r[i] != sep,
    ensures
        split(s + r, sep) == split(s, sep).drop_last().push(split(s, sep).last() + r),
    decreases r.len(),
{
    lemma_split_nonempty(s, sep);
    let pieces = split(s, sep);
    if r.len() == 0 {
        assert(s + r =~= s);
        assert(pieces.last() + r =~= pieces.last());
        assert(pieces.drop_last().push(pieces.last()) =~= pieces);
    } else {
        let shorter = r.drop_last();
        lemma_split_append(s, shorter, sep);
        assert((s + r).drop_last() =~= s + shorter);
        assert((s + r).last() == r.last());
        let before = split(s + shorter, sep);
        assert(before.drop_last() =~= pieces.drop_last());
        assert(before.last().push(r.last()) =~= pieces.last() + r);
    }
}

/// A separator put behind `s` opens a new, empty piece.
pub proof fn lemma_split_separator(s: Seq<char>, sep: char)
    ensures
        split(s.push(sep), sep) == split(s, sep).push(Seq::empty()),
{
    assert(s.push(sep).drop_last() =~= s);
}

/// Text that neither starts nor ends with whitespace is its own trimming.
pub proof fn lemma_trim_of_trimmed(s: Seq<char>)
    requires
        s.len() > 0,
        !is_whitespace(s.first()),
        !is_whitespace(s.last()),
    ensures
        trim(s) == s,
{
}

/// The token of a cell is `#` exactly for a live cell, and it is never
/// whitespace.
pub proof fn lemma_token_is_plain(alive: bool, neighbours: nat)
    ensures
        (token_of(alive, neighbours) == '#') == alive,
        !is_whitespace(token_of(alive, neighbours)),
{
}

/// The text of `n` cells of a row: token and space in turn.
pub proof fn lemma_row_text_shape(board: Board, y: int, n: nat)
    ensures
        row_text(board, y, n).len() == 2 * n,
        forall|i: int|
            0 <= i < n ==> #[trigger] row_text(board, y, n)[2 * i] == token_of(
                board.alive(i, y),
                board.live_neighbours(i, y),
            ) && row_text(board, y, n)[2 * i + 1] == ' ',
        forall|j: int| 0 <= j < 2 * n ==> row_text(board, y, n)[j] != '\n',
    decreases n,
{
    if n > 0 {
        lemma_row_text_shape(board, y, (n - 1) as nat);
        lemma_token_is_plain(board.alive(n - 1, y), board.live_neighbours(n - 1, y));
        let shorter = row_text(board, y, (n - 1) as nat);
        assert forall|i: int| 0 <= i < n implies #[trigger] row_text(board, y, n)[2 * i]
            == token_of(board.alive(i, y), board.live_neighbours(i, y)) && row_text(
            board,
            y,
            n,
        )[2 * i + 1] == ' ' by {
            if i < n - 1 {
                assert(shorter[2 * i] == token_of(board.alive(i, y), board.live_neighbours(i, y)));
            }
        }
    }
}

/// One line of the text of a board, with or without the space at its end,
/// reads back as the states of the cells of that row.
pub proof fn lemma_row_reads_back(board: Board, y: int, n: nat)
    requires
        n >= 1,
    ensures
        split(row_text(board, y, n).drop_last(), ' ') == Seq::new(
            n,
            |x: int| seq![token_of(board.alive(x, y), board.live_neighbours(x, y))],
        ),
        trim(row_text(board, y, n)) == row_text(board, y, n).drop_last(),
        trim(row_text(board, y, n).drop_last()) == row_text(board, y, n).drop_last(),
        row_of(row_text(board, y, n)) == Seq::new(n, |x: int| board.alive(x, y)),
        row_of(row_text(board, y, n).drop_last()) == Seq::new(n, |x: int| board.alive(x, y)),
    decreases n,
{
    let line = row_text(board, y, n);
    let inner = line.drop_last();
    let shorter = row_text(board, y, (n - 1) as nat);
    let token = token_of(board.alive(n - 1, y), board.live_neighbours(n - 1, y));
    let tokens = Seq::new(
        n,
        |x: int| seq![token_of(board.alive(x, y), board.live_neighbours(x, y))],
    );
    lemma_row_text_shape(board, y, n);
    lemma_token_is_plain(board.alive(n - 1, y), board.live_neighbours(n - 1, y));
    lemma_token_is_plain(board.alive(0, y), board.live_neighbours(0, y));
    assert(line[2 * 0int] == token_of(board.alive(0, y), board.live_neighbours(0, y)));
    assert(line[2 * (n - 1)] == token);
    assert(inner =~= shorter.push(token));
    assert(inner.drop_last() =~= shorter);
    if n == 1 {
        assert(shorter =~= Seq::<char>::empty());
        assert(split(shorter, ' ') =~= seq![Seq::<char>::empty()]);
        assert(split(inner, ' ') =~= tokens);
    } else {
        lemma_row_reads_back(board, y, (n - 1) as nat);
        lemma_row_text_shape(board, y, (n - 1) as nat);
        assert(shorter[2 * (n - 2) + 1] == ' ');
        assert(shorter =~= shorter.drop_last().push(' '));
        lemma_split_separator(shorter.drop_last(), ' ');
        assert(split(inner, ' ') =~= tokens);
    }
    assert(trim_start(line) == line);
    assert(trim_end(line) == trim_end(inner));
    lemma_trim_of_trimmed(inner);
    let flags = Seq::new(n, |x: int| board.alive(x, y));
    assert(row_of(inner) =~= flags) by {
        assert forall|x: int| 0 <= x < n implies #[trigger] row_of(inner)[x] == flags[x] by {
            lemma_token_is_plain(board.alive(x, y), board.live_neighbours(x, y));
            let t = token_of(board.alive(x, y), board.live_neighbours(x, y));
            assert(seq![t][0] == t);
            assert(seq!['#'][0] == '#');
            if t == '#' {
                assert(seq![t] =~= seq!['#']);
            }
        }
    }
}

/// The text of the first `n` rows of a board behind its empty first line.
pub open spec fn body_text(board: Board, n: nat) -> Seq<char> {
    rows_text(board, n).drop_first()
}

/// The text of a board starts with an empty line, and each row adds its
/// line to the end.
pub proof fn lemma_body_text_grows(board: Board, n: nat)
    ensures
        rows_text(board, n).len() >= 1,
        rows_text(board, n).first() == '\n',
        n >= 1 ==> body_text(board, n) == body_text(board, (n - 1) as nat) + row_text(
            board,
            n - 1,
            board.width,
        ) + seq!['\n'],
    decreases n,
{
    if n > 0 {
        lemma_body_text_grows(board, (n - 1) as nat);
        assert(body_text(board, n) =~= body_text(board, (n - 1) as nat) + row_text(
            board,
            n - 1,
            board.width,
        ) + seq!['\n']);
    }
}

/// The lines of the text of the first `n` rows are the texts of the rows,
/// and an empty piece behind the last line break.
pub proof fn lemma_body_text_lines(board: Board, n: nat)
    requires
        board.width >= 1,
    ensures
        split(body_text(board, n), '\n') == Seq::new(
            n,
            |y: int| row_text(board, y, board.width),
        ).push(Seq::empty()),
        n >= 1 ==> body_text(board, n).len() >= 1 && !is_whitespace(body_text(board, n).first()),
    decreases n,
{
    let lines = Seq::new(n, |y: int| row_text(board, y, board.width)).push(Seq::empty());
    if n == 0 {
        assert(body_text(board, n) =~= Seq::<char>::empty());
        assert(split(body_text(board, n), '\n') =~= lines);
    } else {
        let before = body_text(board, (n - 1) as nat);
        let row = row_text(board, n - 1, board.width);
        lemma_body_text_lines(board, (n - 1) as nat);
        lemma_body_text_grows(board, n);
        lemma_row_text_shape(board, n - 1, board.width);
        lemma_split_append(before, row, '\n');
        lemma_split_separator(before + row, '\n');
        assert(body_text(board, n) =~= (before + row).push('\n'));
        assert(split(body_text(board, n), '\n') =~= lines);
        lemma_token_is_plain(board.alive(0, n - 1), board.live_neighbours(0, n - 1));
        assert(row[2 * 0int] == token_of(
            board.alive(0, n - 1),
            board.live_neighbours(0, n - 1),
        ));
        if n == 1 {
            assert(before =~= Seq::<char>::empty());
            assert(body_text(board, n).first() == row[0]);
        } else {
            assert(body_text(board, n).first() == before.first());
        }
    }
}

/// The text of a board reads back as the board: a row of flags for each row
/// of the board, a flag for each cell, set exactly for the live cells. So
/// the text fits the board, and laid over an empty board of the same size
/// it gives the board's live cells.
pub proof fn lemma_text_reads_back(board: Board)
    requires
        board.wf(),
    ensures
        rows_of(text_of(board)) == Seq::new(
            board.height,
            |y: int| Seq::new(board.width, |x: int| board.alive(x, y)),
        ),
        fits(rows_of(text_of(board)), board.width as int, board.height as int),
        live_of(rows_of(text_of(board))) == board.live,
{
    let h = board.height;
    let w = board.width;
    let text = text_of(board);
    let body = body_text(board, h);
    let before = body_text(board, (h - 1) as nat);
    let row = row_text(board, h - 1, w);
    let flags = Seq::new(h, |y: int| Seq::new(w, |x: int| board.alive(x, y)));
    lemma_body_text_grows(board, h);
    lemma_body_text_lines(board, h);
    lemma_body_text_lines(board, (h - 1) as nat);
    lemma_row_text_shape(board, h - 1, w);
    lemma_row_reads_back(board, h - 1, w);
    lemma_token_is_plain(board.alive(w - 1, h - 1), board.live_neighbours(w - 1, h - 1));
    assert(row[2 * (w - 1)] == token_of(
        board.alive(w - 1, h - 1),
        board.live_neighbours(w - 1, h - 1),
    ));
    assert(row[2 * (w - 1) + 1] == ' ');
    let kept = before + row.drop_last();
    assert(is_whitespace(text.first()));
    assert(trim_start(text) == trim_start(body));
    assert(trim_start(body) == body);
    assert(body.drop_last() =~= before + row);
    assert((before + row).drop_last() =~= kept);
    assert(kept.last() == row[2 * (w - 1)]);
    assert(trim_end(body) == trim_end(before + row));
    assert(trim_end(before + row) == trim_end(kept));
    assert(trim_end(kept) == kept);
    assert(trim(text) == kept);
    lemma_split_append(before, row.drop_last(), '\n');
    let lines = split(kept, '\n');
    assert(lines =~= Seq::new((h - 1) as nat, |y: int| row_text(board, y, w)).push(
        row.drop_last(),
    ));
    assert(rows_of(text) =~= flags) by {
        assert forall|y: int| 0 <= y < h implies #[trigger] rows_of(text)[y] == flags[y] by {
            lemma_row_reads_back(board, y, w);
        }
    }
    assert forall|c: (int, int)| live_of(flags).contains(c) == board.live.contains(c) by {
        if board.contains(c.0, c.1) {
            assert(flags[c.1][c.0] == board.alive(c.0, c.1));
        }
    }
    assert(live_of(flags) =~= board.live);
}

} // verus!
