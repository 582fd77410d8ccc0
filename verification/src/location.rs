use vstd::prelude::*;

verus! {

/// A position in the source text: a 1-based line (`row`) and column.
#[derive(Clone, Copy, Debug, PartialEq, Eq, Structural)]
pub struct Location {
    pub(crate) row: usize,
    pub(crate) column: usize,
}

impl Default for Location {
    fn default() -> (r: Self)
        ensures
            r.line() == 0,
            r.col() == 0,
    {
        Location { row: 0, column: 0 }
    }
}

impl Location {
    /// The line of this location.
    pub closed spec fn line(self) -> usize {
        self.row
    }

    /// The column of this location.
    pub closed spec fn col(self) -> usize {
        self.column
    }

    /// The location at the given line and column.
    pub closed spec fn at(row: usize, column: usize) -> Location {
        Location { row, column }
    }

    /// A location is determined by its line and column.
    pub broadcast proof fn lemma_at(row: usize, column: usize)
        ensures
            #[trigger] Location::at(row, column).line() == row,
            Location::at(row, column).col() == column,
    {
    }

    /// Every location is the one at its own line and column.
    pub broadcast proof fn lemma_parts(loc: Location)
        ensures
            #[trigger] Location::at(loc.line(), loc.col()) == loc,
    {
    }

    /// One column to the right.
    pub open spec fn moved_right(self) -> Location {
        Location::at(self.line(), (self.col() + 1) as usize)
    }

    /// One column to the left.
    pub open spec fn moved_left(self) -> Location {
        Location::at(self.line(), (self.col() - 1) as usize)
    }

    /// The first column of the next line.
    pub open spec fn next_line(self) -> Location {
        Location::at((self.line() + 1) as usize, 1)
    }

    pub fn new(row: usize, column: usize) -> (r: Self)
        ensures
            r.line() == row,
            r.col() == column,
    {
        Location { row, column }
    }

    pub fn row(&self) -> (r: usize)
        ensures
            r == self.line(),
    {
        self.row
    }

    pub fn column(&self) -> (r: usize)
        ensures
            r == self.col(),
    {
        self.column
    }

    /// Moves back to the first column of the first line.
    pub fn reset(&mut self)
        ensures
            final(self).line() == 1,
            final(self).col() == 1,
    {
        self.row = 1;
        self.column = 1;
    }

    /// Moves one column to the right on the same line.
    pub fn go_right(&mut self)
        requires
            old(self).col() < usize::MAX,
        ensures
            final(self).line() == old(self).line(),
            final(self).col() == old(self).col() + 1,
            *final(self) == old(self).moved_right(),
    {
        self.column += 1;
    }

    /// Moves one column to the left on the same line.
    pub fn go_left(&mut self)
        requires
            old(self).col() > 0,
        ensures
            final(self).line() == old(self).line(),
            final(self).col() == old(self).col() - 1,
            *final(self) == old(self).moved_left(),
    {
        self.column -= 1;
    }

    /// Moves to the first column of the next line.
    pub fn newline(&mut self)
        requires
            old(self).line() < usize::MAX,
        ensures
            final(self).line() == old(self).line() + 1,
            final(self).col() == 1,
            *final(self) == old(self).next_line(),
    {
        self.row += 1;
        self.column = 1;
    }

    /// The source line `line` with a caret under this location's column on
    /// the line below it.
    pub fn visualize(&self, line: &str) -> (r: String)
        ensures
            r@ == caret_under(line@, self.col() as nat),
    {
        let mut out = line.to_owned();
        out.push('\n');
        let mut k: usize = 1;
        while k < self.column
            invariant
                1 <= k,
                k <= self.column || k == 1,
                out@ == line@ + seq!['\n'] + Seq::new((k - 1) as nat, |i: int| ' '),
            decreases self.column - k,
        {
            out.push(' ');
            k = k + 1;
            assert(out@ =~= line@ + seq!['\n'] + Seq::new((k - 1) as nat, |i: int| ' '));
        }
        let ghost pad: nat = if self.column > 0 {
            (self.column - 1) as nat
        } else {
            0
        };
        assert((k - 1) as nat == pad);
        out.push('^');
        assert(out@ =~= line@ + seq!['\n'] + Seq::new(pad, |i: int| ' ') + seq!['^']);
        out
    }

    /// The location in words: `line <row> column <column>`.
    pub fn to_string(&self) -> (r: String)
        ensures
            r@ == seq!['l', 'i', 'n', 'e', ' '] + decimal_digits(self.line() as nat) + seq![
                ' ',
                'c',
                'o',
                'l',
                'u',
                'm',
                'n',
                ' ',
            ] + decimal_digits(self.col() as nat),
    {
        let mut out = String::new();
        push_chars(&mut out, &['l', 'i', 'n', 'e', ' ']);
        push_decimal(&mut out, self.row);
        push_chars(&mut out, &[' ', 'c', 'o', 'l', 'u', 'm', 'n', ' ']);
        push_decimal(&mut out, self.column);
        out
    }
}

/// A line of text, a line break, and a caret at `column` on the next line
/// (at the start for columns 0 and 1).
pub open spec fn caret_under(line: Seq<char>, column: nat) -> Seq<char> {
    line + seq!['\n'] + Seq::new(
        if column > 0 {
            (column - 1) as nat
        } else {
            0
        },
        |i: int| ' ',
    ) + seq!['^']
}

/// The decimal digits of `n`, without leading zeros.
pub open spec fn decimal_digits(n: nat) -> Seq<char>
    decreases n,
{
    if n < 10 {
        seq![digit_char(n)]
    } else {
        decimal_digits(n / 10).push(digit_char(n % 10))
    }
}

/// The character of the decimal digit `d`.
pub open spec fn digit_char(d: nat) -> char {
    seq!['0', '1', '2', '3', '4', '5', '6', '7', '8', '9'][d as int]
}

/// Appends `chars` to `out`.
fn push_chars(out: &mut String, chars: &[char])
    ensures
        final(out)@ == old(out)@ + chars@,
{
    let mut i: usize = 0;
    while i < chars.len()
        invariant
            i <= chars@.len(),
            out@ == old(out)@ + chars@.take(i as int),
        decreases chars@.len() - i,
    {
        out.push(chars[i]);
        i = i + 1;
        assert(out@ =~= old(out)@ + chars@.take(i as int));
    }
    assert(chars@.take(i as int) =~= chars@);
}

/// Appends the decimal digits of `n` to `out`.
fn push_decimal(out: &mut String, n: usize)
    ensures
        final(out)@ == old(out)@ + decimal_digits(n as nat),
    decreases n,
{
    let digits = ['0', '1', '2', '3', '4', '5', '6', '7', '8', '9'];
    if n >= 10 {
        push_decimal(out, n / 10);
    }
    let d = digits[n % 10];
    assert(d == digit_char((n % 10) as nat));
    out.push(d);
    assert(out@ =~= old(out)@ + decimal_digits(n as nat));
}

/// Moving right and then left returns to the same location.
pub proof fn lemma_left_undoes_right(loc: Location)
    requires
        loc.col() < usize::MAX,
    ensures
        loc.moved_right().moved_left() == loc,
{
}

/// A new line starts at the first column, whatever column came before.
pub proof fn lemma_next_line_forgets_column(a: Location, b: Location)
    requires
        a.line() == b.line(),
        a.line() < usize::MAX,
    ensures
        a.next_line() == b.next_line(),
{
}

} // verus!
