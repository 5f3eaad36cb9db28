//! Reading grid text: one line per row, one character per cell. Each character stands for a
//! boolean through a character map; the 32 base-32 digits stand for the bits of a key.
use crate::encrypt::{index_view, key_bit};
use crate::matrix::table_grid;
use crate::matrix::ToroidalMatrixIndex;
pub mod typing;

use vstd::prelude::*;

verus! {

/// Error reading a table of booleans from text.
#[derive(Debug, PartialEq, Eq, Structural)]
pub enum TableReadError {
    /// A character that the character map does not hold.
    InvalidCharacter(char),
    /// Rows of differing lengths.
    RaggedTable(),
}

impl TableReadError {
    /// A short description of the error; the offending character of `InvalidCharacter` is
    /// its field.
    pub fn message(&self) -> (r: &'static str)
        ensures
            self is InvalidCharacter ==> r@ == "Invalid character"@,
            self is RaggedTable ==> r@ == "Ragged table"@,
    {
        match self {
            TableReadError::InvalidCharacter(_) => "Invalid character",
            TableReadError::RaggedTable() => "Ragged table",
        }
    }
}

/// The base-32 digits; digit `i` stands for bit `i` of a key.
pub open spec fn base32_digits() -> Seq<char> {
    seq![
        'A', 'B', 'C', 'D', 'E', 'F', 'G', 'H', 'I', 'J', 'K', 'L', 'M', 'N', 'O', 'P',
        'Q', 'R', 'S', 'T', 'U', 'V', 'W', 'X', 'Y', 'Z', '2', '3', '4', '5', '6', '7',
    ]
}

/// The last value stored for `c` among `entries`.
pub open spec fn lookup_in(entries: Seq<(char, bool)>, c: char) -> Option<bool>
    decreases entries.len(),
{
    if entries.len() == 0 {
        None
    } else if entries.last().0 == c {
        Some(entries.last().1)
    } else {
        lookup_in(entries.drop_last(), c)
    }
}

/// A map from characters to booleans; its view is the map it holds.
#[derive(Debug, Clone)]
pub struct CharMap {
    entries: Vec<(char, bool)>,
}

impl View for CharMap {
    type V = Map<char, bool>;

    closed spec fn view(&self) -> Map<char, bool> {
        Map::new(
            |c: char| lookup_in(self.entries@, c) is Some,
            |c: char|
                match lookup_in(self.entries@, c) {
                    Some(v) => v,
                    None => false,
                },
        )
    }
}

/// The map of the first `n` base-32 digits, digit `i` standing for bit `i` of `seed`.
pub open spec fn digit_map(seed: u32, n: int) -> Map<char, bool>
    decreases n,
{
    if n <= 0 {
        Map::empty()
    } else {
        digit_map(seed, n - 1).insert(base32_digits()[n - 1], key_bit(seed, n - 1))
    }
}

impl CharMap {
    /// The empty map.
    pub fn new() -> (r: CharMap)
        ensures
            r@ == Map::<char, bool>::empty(),
    {
        let r = CharMap { entries: Vec::new() };
        proof {
            assert(r@ =~= Map::<char, bool>::empty());
        }
        r
    }

    /// Maps `c` to `value`, replacing what the map held for it.
    pub fn insert(&mut self, c: char, value: bool)
        ensures
            final(self)@ == old(self)@.insert(c, value),
    {
        let ghost before = *self;
        self.entries.push((c, value));
        proof {
            assert(self.entries@.drop_last() =~= before.entries@);
            assert(self@ =~= before@.insert(c, value));
        }
    }

    /// The value the map holds for `c`.
    pub fn get(&self, c: &char) -> (r: Option<bool>)
        ensures
            r == (if self@.contains_key(*c) {
                Some(self@[*c])
            } else {
                None
            }),
    {
        let mut i: usize = self.entries.len();
        proof {
            assert(self.entries@.take(i as int) =~= self.entries@);
        }
        while i > 0
            invariant
                i <= self.entries@.len(),
                lookup_in(self.entries@, *c) == lookup_in(self.entries@.take(i as int), *c),
            decreases i,
        {
            let (d, v) = self.entries[i - 1];
            proof {
                assert(self.entries@.take(i as int).drop_last() =~= self.entries@.take(i - 1));
            }
            if d == *c {
                return Some(v);
            }
            i -= 1;
        }
        None
    }
}

/// Generates the character map of a key: base-32 digit `i` maps to bit `i` of `seed`.
pub fn gen_char_map(seed: u32) -> (r: CharMap)
    ensures
        r@ == digit_map(seed, 32),
        forall|i: int| 0 <= i < 32 ==> r@.contains_key(#[trigger] base32_digits()[i]) && r@[base32_digits()[i]]
            == key_bit(seed, i),
        forall|c: char| !base32_digits().contains(c) ==> !r@.contains_key(c),
{
    let digits: [char; 32] = [
        'A', 'B', 'C', 'D', 'E', 'F', 'G', 'H', 'I', 'J', 'K', 'L', 'M', 'N', 'O', 'P',
        'Q', 'R', 'S', 'T', 'U', 'V', 'W', 'X', 'Y', 'Z', '2', '3', '4', '5', '6', '7',
    ];
    proof {
        assert(digits@ == base32_digits());
    }
    let mut map = CharMap::new();
    let mut n: usize = 0;
    while n < 32
        invariant
            n <= 32,
            digits@ == base32_digits(),
            map@ == digit_map(seed, n as int),
            forall|i: int| 0 <= i < n ==> map@.contains_key(#[trigger] base32_digits()[i]) && map@[base32_digits()[i]]
                == key_bit(seed, i),
            forall|c: char| !base32_digits().take(n as int).contains(c) ==> !map@.contains_key(c),
        decreases 32 - n,
    {
        map.insert(digits[n], (seed >> (n as u32)) & 1 != 0);
        proof {
            assert forall|i: int| 0 <= i < n implies map@.contains_key(#[trigger] base32_digits()[i])
                && map@[base32_digits()[i]] == key_bit(seed, i) by {
                assert(base32_digits()[i] != base32_digits()[n as int]);
            }
            assert forall|c: char| !base32_digits().take(n + 1).contains(c) implies !map@.contains_key(
                c,
            ) by {
                assert(base32_digits().take(n + 1)[n as int] == base32_digits()[n as int]);
                if base32_digits().take(n as int).contains(c) {
                    let j = choose|j: int|
                        0 <= j < n && base32_digits().take(n as int)[j] == c;
                    assert(base32_digits().take(n + 1)[j] == c);
                }
            }
        }
        n += 1;
    }
    proof {
        assert(base32_digits().take(32) =~= base32_digits());
    }
    map
}

/// The characters of `s`, in order.
fn text_chars(s: &str) -> (r: Vec<char>)
    ensures
        r@ == s@,
{
    let mut out: Vec<char> = Vec::new();
    for c in iter: s.chars()
        invariant
            out@ == iter.seq().take(iter.index() as int),
    {
        out.push(c);
    }
    proof {
        assert(out@ =~= s@);
    }
    out
}

/// The segments of `s` between newline characters; there is always one more segment than
/// there are newlines.
pub open spec fn split_newlines(s: Seq<char>) -> Seq<Seq<char>>
    decreases s.len(),
{
    if s.len() == 0 {
        seq![Seq::empty()]
    } else if s.last() == '\n' {
        split_newlines(s.drop_last()).push(Seq::empty())
    } else {
        let t = split_newlines(s.drop_last());
        t.update(t.len() - 1, t.last().push(s.last()))
    }
}

/// A line without the carriage return that ends it, if any.
pub open spec fn strip_cr(line: Seq<char>) -> Seq<char> {
    if line.len() > 0 && line.last() == '\r' {
        line.drop_last()
    } else {
        line
    }
}

/// The lines of a text as `str::lines` yields them: split at `\n`, a `\r` before the `\n`
/// removed, and no empty last line after a final line ending.
pub open spec fn text_lines(s: Seq<char>) -> Seq<Seq<char>> {
    let t = split_newlines(s);
    let ended = t.drop_last().map_values(|l: Seq<char>| strip_cr(l));
    if t.last().len() == 0 {
        ended
    } else {
        ended.push(t.last())
    }
}

proof fn lemma_split_newlines_nonempty(s: Seq<char>)
    ensures
        split_newlines(s).len() >= 1,
    decreases s.len(),
{
    if s.len() > 0 {
        lemma_split_newlines_nonempty(s.drop_last());
    }
}

/// The lines of `chars`, as [`text_lines`] gives them.
fn lines_of(chars: &Vec<char>) -> (r: Vec<Vec<char>>)
    ensures
        r@.map_values(|l: Vec<char>| l@) == text_lines(chars@),
        r@.len() <= chars@.len(),
        forall|k: int| 0 <= k < r@.len() ==> #[trigger] r@[k]@.len() <= chars@.len(),
{
    let mut done: Vec<Vec<char>> = Vec::new();
    let mut current: Vec<char> = Vec::new();
    let mut i: usize = 0;
    while i < chars.len()
        invariant
            i <= chars@.len(),
            split_newlines(chars@.take(i as int)).len() == done@.len() + 1,
            forall|k: int|
                0 <= k < done@.len() ==> #[trigger] done@[k]@ == strip_cr(
                    split_newlines(chars@.take(i as int))[k],
                ),
            current@ == split_newlines(chars@.take(i as int)).last(),
            done@.len() + current@.len() <= i,
            forall|k: int| 0 <= k < done@.len() ==> #[trigger] done@[k]@.len() <= i,
        decreases chars@.len() - i,
    {
        let c = chars[i];
        let ghost t = split_newlines(chars@.take(i as int));
        proof {
            assert(chars@.take(i + 1).drop_last() =~= chars@.take(i as int));
            lemma_split_newlines_nonempty(chars@.take(i as int));
        }
        if c == '\n' {
            let mut line = current;
            if line.len() > 0 && line[line.len() - 1] == '\r' {
                line.pop();
            }
            proof {
                assert(line@ == strip_cr(t.last()));
            }
            done.push(line);
            current = Vec::new();
        } else {
            current.push(c);
        }
        i += 1;
    }
    proof {
        assert(chars@.take(chars@.len() as int) =~= chars@);
    }
    let ghost t = split_newlines(chars@);
    if current.len() > 0 {
        done.push(current);
    }
    proof {
        assert(done@.map_values(|l: Vec<char>| l@) =~= text_lines(chars@));
    }
    done
}


/// The row of booleans a line stands for, or the first character the map does not hold.
pub open spec fn parse_line(line: Seq<char>, map: Map<char, bool>) -> Result<Seq<bool>, char>
    decreases line.len(),
{
    if line.len() == 0 {
        Ok(Seq::empty())
    } else {
        match parse_line(line.drop_last(), map) {
            Err(c) => Err(c),
            Ok(row) => if map.contains_key(line.last()) {
                Ok(row.push(map[line.last()]))
            } else {
                Err(line.last())
            },
        }
    }
}

/// The table of booleans some lines stand for, or the first character the map does not
/// hold.
pub open spec fn parse_lines(lines: Seq<Seq<char>>, map: Map<char, bool>) -> Result<Seq<Seq<bool>>, char>
    decreases lines.len(),
{
    if lines.len() == 0 {
        Ok(Seq::empty())
    } else {
        match parse_lines(lines.drop_last(), map) {
            Err(c) => Err(c),
            Ok(t) => match parse_line(lines.last(), map) {
                Ok(row) => Ok(t.push(row)),
                Err(c) => Err(c),
            },
        }
    }
}

/// Whether every row of a table has the length of the first.
pub open spec fn rows_equal(t: Seq<Seq<bool>>) -> bool {
    forall|i: int| 0 <= i < t.len() ==> #[trigger] t[i].len() == t[0].len()
}

/// The table a text stands for under a character map, or why it stands for none: the first
/// character the map does not hold, or else lines of differing lengths.
pub open spec fn read_table(s: Seq<char>, map: Map<char, bool>) -> Result<
    Seq<Seq<bool>>,
    TableReadError,
> {
    match parse_lines(text_lines(s), map) {
        Err(c) => Err(TableReadError::InvalidCharacter(c)),
        Ok(t) => if rows_equal(t) {
            Ok(t)
        } else {
            Err(TableReadError::RaggedTable())
        },
    }
}

/// A failure on a prefix of a line is the failure of the whole line.
proof fn lemma_parse_line_err(line: Seq<char>, map: Map<char, bool>, j: int)
    requires
        0 <= j <= line.len(),
        parse_line(line.take(j), map) is Err,
    ensures
        parse_line(line, map) == parse_line(line.take(j), map),
    decreases line.len() - j,
{
    if j < line.len() {
        assert(line.take(j + 1).drop_last() =~= line.take(j));
        lemma_parse_line_err(line, map, j + 1);
    } else {
        assert(line.take(j) =~= line);
    }
}

/// A failure on the first lines of a text is the failure of the whole text.
proof fn lemma_parse_lines_err(lines: Seq<Seq<char>>, map: Map<char, bool>, k: int)
    requires
        0 <= k <= lines.len(),
        parse_lines(lines.take(k), map) is Err,
    ensures
        parse_lines(lines, map) == parse_lines(lines.take(k), map),
    decreases lines.len() - k,
{
    if k < lines.len() {
        assert(lines.take(k + 1).drop_last() =~= lines.take(k));
        lemma_parse_lines_err(lines, map, k + 1);
    } else {
        assert(lines.take(k) =~= lines);
    }
}

/// Reads `string` as a table of booleans, line by line, each character through `char_map`.
/// The first character the map does not hold is reported; failing that, lines of differing
/// lengths are.
pub fn parse_bool_table(string: &str, char_map: &CharMap) -> (r: Result<
    Vec<Vec<bool>>,
    TableReadError,
>)
    ensures
        match read_table(string@, char_map@) {
            Ok(t) => r matches Ok(table) && table_grid(table@) == t,
            Err(e) => r == Err::<Vec<Vec<bool>>, _>(e),
        },
{
    let chars = text_chars(string);
    let lines = lines_of(&chars);
    let ghost ls = text_lines(string@);
    proof {
        assert forall|k: int| 0 <= k < lines@.len() implies #[trigger] lines@[k]@ == ls[k] by {
            assert(lines@.map_values(|l: Vec<char>| l@)[k] == lines@[k]@);
        }
    }
    let mut table: Vec<Vec<bool>> = Vec::new();
    proof {
        assert(ls.take(0) =~= Seq::<Seq<char>>::empty());
        assert(table_grid(table@) =~= Seq::<Seq<bool>>::empty());
    }
    let mut k: usize = 0;
    while k < lines.len()
        invariant
            ls == text_lines(string@),
            lines@.len() == ls.len(),
            forall|kk: int| 0 <= kk < lines@.len() ==> #[trigger] lines@[kk]@ == ls[kk],
            k <= lines@.len(),
            parse_lines(ls.take(k as int), char_map@) == Ok::<_, char>(table_grid(table@)),
        decreases lines@.len() - k,
    {
        let line = &lines[k];
        let mut row: Vec<bool> = Vec::new();
        proof {
            assert(line@.take(0) =~= Seq::<char>::empty());
        }
        let mut j: usize = 0;
        while j < line.len()
            invariant
                k < lines@.len(),
                ls == text_lines(string@),
                lines@.len() == ls.len(),
                *line == lines@[k as int],
                line@ == ls[k as int],
                j <= line@.len(),
                parse_lines(ls.take(k as int), char_map@) == Ok::<_, char>(table_grid(table@)),
                parse_line(line@.take(j as int), char_map@) == Ok::<_, char>(row@),
            decreases line@.len() - j,
        {
            let c = line[j];
            proof {
                assert(line@.take(j + 1).drop_last() =~= line@.take(j as int));
            }
            match char_map.get(&c) {
                Some(v) => {
                    row.push(v);
                },
                None => {
                    proof {
                        assert(line@.take(j + 1).last() == c);
                        assert(parse_line(line@.take(j + 1), char_map@) == Err::<Seq<bool>, char>(c));
                        lemma_parse_line_err(line@, char_map@, j + 1);
                        assert(ls.take(k + 1).drop_last() =~= ls.take(k as int));
                        assert(ls.take(k + 1).last() == ls[k as int]);
                        assert(parse_lines(ls.take(k + 1), char_map@) == Err::<Seq<Seq<bool>>, char>(c));
                        lemma_parse_lines_err(ls, char_map@, k + 1);
                        assert(parse_lines(text_lines(string@), char_map@) == Err::<
                            Seq<Seq<bool>>,
                            char,
                        >(c));
                    }
                    return Err(TableReadError::InvalidCharacter(c));
                },
            }
            j += 1;
        }
        proof {
            assert(line@.take(line@.len() as int) =~= line@);
            assert(ls.take(k + 1).drop_last() =~= ls.take(k as int));
        }
        let ghost before = table@;
        table.push(row);
        proof {
            assert(table_grid(table@) =~= table_grid(before).push(row@));
        }
        k += 1;
    }
    proof {
        assert(ls.take(ls.len() as int) =~= ls);
    }
    let ghost t = table_grid(table@);
    proof {
        assert(parse_lines(text_lines(string@), char_map@) == Ok::<_, char>(t));
    }
    let mut i: usize = 0;
    while i < table.len()
        invariant
            t == table_grid(table@),
            parse_lines(text_lines(string@), char_map@) == Ok::<_, char>(t),
            i <= table@.len(),
            forall|j: int| 0 <= j < i ==> #[trigger] t[j].len() == t[0].len(),
        decreases table@.len() - i,
    {
        if table[i].len() != table[0].len() {
            proof {
                assert(t[i as int].len() != t[0].len());
            }
            return Err(TableReadError::RaggedTable());
        }
        i += 1;
    }
    Ok(table)
}

/// The positions, in row-major order, of `ch` among the first `n` characters of a line
/// that is row `r`.
pub open spec fn row_positions(line: Seq<char>, ch: char, r: int, n: int) -> Seq<(int, int)>
    decreases n,
{
    if n <= 0 {
        Seq::empty()
    } else {
        row_positions(line, ch, r, n - 1) + if line[n - 1] == ch {
            seq![(r, n - 1)]
        } else {
            Seq::empty()
        }
    }
}

/// The positions, in row-major order, of `ch` in the first `n` lines.
pub open spec fn char_positions(lines: Seq<Seq<char>>, ch: char, n: int) -> Seq<(int, int)>
    decreases n,
{
    if n <= 0 {
        Seq::empty()
    } else {
        char_positions(lines, ch, n - 1) + row_positions(lines[n - 1], ch, n - 1, lines[n - 1].len() as int)
    }
}

/// The positions of `ch` in a text's lines, in row-major order.
pub open spec fn text_positions(s: Seq<char>, ch: char) -> Seq<(int, int)> {
    char_positions(text_lines(s), ch, text_lines(s).len() as int)
}

/// The positions of `character` among `lines`, in row-major order.
fn get_char_indices(lines: &Vec<Vec<char>>, character: char) -> (r: Vec<ToroidalMatrixIndex>)
    requires
        lines@.len() <= isize::MAX,
        forall|k: int| 0 <= k < lines@.len() ==> #[trigger] lines@[k]@.len() <= isize::MAX,
    ensures
        index_view(r@) == char_positions(
            lines@.map_values(|l: Vec<char>| l@),
            character,
            lines@.len() as int,
        ),
{
    let ghost ls = lines@.map_values(|l: Vec<char>| l@);
    let mut result: Vec<ToroidalMatrixIndex> = Vec::new();
    let mut row: usize = 0;
    while row < lines.len()
        invariant
            lines@.len() <= isize::MAX,
            forall|k: int| 0 <= k < lines@.len() ==> #[trigger] lines@[k]@.len() <= isize::MAX,
            ls == lines@.map_values(|l: Vec<char>| l@),
            row <= lines@.len(),
            index_view(result@) == char_positions(ls, character, row as int),
        decreases lines@.len() - row,
    {
        let line = &lines[row];
        let ghost start = index_view(result@);
        let mut col: usize = 0;
        while col < line.len()
            invariant
                row < lines@.len(),
                row <= isize::MAX,
                line@.len() <= isize::MAX,
                ls[row as int] == line@,
                col <= line@.len(),
                index_view(result@) == start + row_positions(line@, character, row as int, col as int),
            decreases line@.len() - col,
        {
            let ghost before = result@;
            if line[col] == character {
                result.push((row as isize, col as isize));
                proof {
                    assert(index_view(result@) =~= index_view(before).push((row as int, col as int)));
                }
            }
            proof {
                assert(index_view(result@) =~= start + row_positions(
                    line@,
                    character,
                    row as int,
                    col + 1,
                ));
            }
            col += 1;
        }
        row += 1;
    }
    result
}

/// For each base-32 digit `i`, the positions of that digit in `string`'s lines, in
/// row-major order: where temporal seeding writes key bit `i`.
pub fn get_temporal_seed_map(string: &str) -> (r: Vec<Vec<ToroidalMatrixIndex>>)
    requires
        string@.len() <= isize::MAX,
    ensures
        r@.len() == 32,
        forall|i: int|
            0 <= i < 32 ==> index_view(#[trigger] r@[i]@) == text_positions(
                string@,
                base32_digits()[i],
            ),
{
    let digits: [char; 32] = [
        'A', 'B', 'C', 'D', 'E', 'F', 'G', 'H', 'I', 'J', 'K', 'L', 'M', 'N', 'O', 'P',
        'Q', 'R', 'S', 'T', 'U', 'V', 'W', 'X', 'Y', 'Z', '2', '3', '4', '5', '6', '7',
    ];
    proof {
        assert(digits@ == base32_digits());
    }
    let chars = text_chars(string);
    let lines = lines_of(&chars);
    let mut result: Vec<Vec<ToroidalMatrixIndex>> = Vec::new();
    let mut n: usize = 0;
    while n < 32
        invariant
            n <= 32,
            digits@ == base32_digits(),
            chars@ == string@,
            lines@.map_values(|l: Vec<char>| l@) == text_lines(string@),
            lines@.len() <= isize::MAX,
            forall|k: int| 0 <= k < lines@.len() ==> #[trigger] lines@[k]@.len() <= isize::MAX,
            result@.len() == n,
            forall|i: int|
                0 <= i < n ==> index_view(#[trigger] result@[i]@) == text_positions(
                    string@,
                    base32_digits()[i],
                ),
        decreases 32 - n,
    {
        result.push(get_char_indices(&lines, digits[n]));
        n += 1;
    }
    result
}

} // verus!
