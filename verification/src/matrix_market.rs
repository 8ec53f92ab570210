//! The Matrix Market coordinate format, line by line: the banner, the size
//! line, the coordinate entries, and the CSR row pointers of the assembled
//! entries. Reading the lines and parsing the numeric values is left to the
//! caller, which hands each line to these functions in turn.
use vstd::prelude::*;
use vstd::string::StringExecFns;

use crate::error::HybitError;

verus! {

broadcast use vstd::string::axiom_spec_iter;

/// The I/O error type of the standard library, carried through unchanged.
#[verifier::external_type_specification]
#[verifier::external_body]
pub struct ExIoError(std::io::Error);

/// Failure of a Matrix Market import.
#[derive(Debug)]
pub enum MatrixMarketError {
    /// Reading the input failed.
    Io(std::io::Error),
    /// The text does not follow the supported format.
    Format(String),
    /// The assembled matrix is not a valid CSR matrix.
    Matrix(HybitError),
}

#[derive(Clone, Copy, Debug, PartialEq, Eq)]
pub enum MatrixMarketSymmetry {
    General,
    Symmetric,
}

/// What an import read and how it changed the entries on the way to CSR.
#[derive(Clone, Debug, PartialEq, Eq)]
pub struct MatrixMarketInfo {
    pub nrows: usize,
    pub ncols: usize,
    /// Number of entries stated in the size line.
    pub input_entries: usize,
    /// Number of entries after symmetric expansion, duplicate summation and
    /// removal of exact zeros.
    pub csr_nnz: usize,
    pub symmetry: MatrixMarketSymmetry,
    pub duplicate_entries_combined: usize,
    pub zero_entries_removed: usize,
}

/// One coordinate entry: zero-based row and column, the text of its value,
/// and whether its mirror image must be added as well.
#[derive(Clone, Debug, PartialEq, Eq)]
pub struct CoordinateEntry {
    pub row: u32,
    pub col: u32,
    pub value_text: Vec<char>,
    pub mirror: bool,
}

/// The characters of a string slice.
pub fn chars_of(s: &str) -> (v: Vec<char>)
    ensures
        v@ == s@,
{
    let mut v: Vec<char> = Vec::new();
    for c in it: s.chars()
        invariant
            v@ == it.seq().take(it.index() as int),
            it.seq() == s@,
    {
        v.push(c);
        assert(v@ =~= it.seq().take(it.index() + 1));
    }
    v
}

/// Unicode white space, as `char::is_whitespace` classifies it.
pub open spec fn is_ws(c: char) -> bool {
    ||| ('\u{9}' <= c <= '\u{d}')
    ||| c == ' '
    ||| c == '\u{85}'
    ||| c == '\u{a0}'
    ||| c == '\u{1680}'
    ||| ('\u{2000}' <= c <= '\u{200a}')
    ||| c == '\u{2028}'
    ||| c == '\u{2029}'
    ||| c == '\u{202f}'
    ||| c == '\u{205f}'
    ||| c == '\u{3000}'
}

fn is_whitespace_char(c: char) -> (b: bool)
    ensures
        b == is_ws(c),
{
    ('\u{9}' <= c && c <= '\u{d}') || c == ' ' || c == '\u{85}' || c == '\u{a0}' || c == '\u{1680}'
        || ('\u{2000}' <= c && c <= '\u{200a}') || c == '\u{2028}' || c == '\u{2029}' || c
        == '\u{202f}' || c == '\u{205f}' || c == '\u{3000}'
}

/// The white-space separated words of `s` from position `i` on, given the
/// word `cur` in progress and the words `acc` already complete.
pub open spec fn words_from(s: Seq<char>, i: int, cur: Seq<char>, acc: Seq<Seq<char>>) -> Seq<Seq<char>>
    decreases s.len() - i,
{
    if i >= s.len() {
        if cur.len() > 0 {
            acc.push(cur)
        } else {
            acc
        }
    } else if is_ws(s[i]) {
        words_from(s, i + 1, Seq::empty(), if cur.len() > 0 { acc.push(cur) } else { acc })
    } else {
        words_from(s, i + 1, cur.push(s[i]), acc)
    }
}

/// The maximal runs of non-white-space characters of `s`, in order.
pub open spec fn words(s: Seq<char>) -> Seq<Seq<char>> {
    words_from(s, 0, Seq::empty(), Seq::empty())
}

/// Splits a line into its white-space separated words.
pub fn split_words(line: &Vec<char>) -> (w: Vec<Vec<char>>)
    ensures
        w@.map_values(|v: Vec<char>| v@) == words(line@),
{
    let mut acc: Vec<Vec<char>> = Vec::new();
    let mut cur: Vec<char> = Vec::new();
    let mut i: usize = 0;
    assert(acc@.map_values(|v: Vec<char>| v@) =~= Seq::<Seq<char>>::empty());
    assert(cur@ =~= Seq::<char>::empty());
    while i < line.len()
        invariant
            i <= line@.len(),
            words_from(line@, i as int, cur@, acc@.map_values(|v: Vec<char>| v@)) == words(line@),
        decreases line@.len() - i,
    {
        let c = line[i];
        let ghost old_cur = cur@;
        let ghost old_acc = acc@.map_values(|v: Vec<char>| v@);
        if is_whitespace_char(c) {
            if cur.len() > 0 {
                let done = cur;
                acc.push(done);
                cur = Vec::new();
                assert(acc@.map_values(|v: Vec<char>| v@) =~= old_acc.push(done@));
            } else {
                assert(cur@ =~= Seq::<char>::empty());
            }
        } else {
            cur.push(c);
        }
        assert(words_from(line@, i as int, old_cur, old_acc) == words_from(
            line@,
            i + 1,
            cur@,
            acc@.map_values(|v: Vec<char>| v@),
        ));
        i = i + 1;
    }
    if cur.len() > 0 {
        let ghost before = acc@.map_values(|v: Vec<char>| v@);
        let done = cur;
        acc.push(done);
        assert(acc@.map_values(|v: Vec<char>| v@) =~= before.push(done@));
    }
    acc
}

/// Code point of `c` with ASCII upper-case letters mapped to lower case.
pub open spec fn ascii_lower(c: char) -> u32 {
    if 'A' <= c <= 'Z' {
        ((c as u32) + 32) as u32
    } else {
        c as u32
    }
}

/// Equality up to ASCII case, as `str::eq_ignore_ascii_case` decides it.
pub open spec fn eq_ignore_ascii_case(a: Seq<char>, b: Seq<char>) -> bool {
    a.len() == b.len() && forall|i: int| 0 <= i < a.len() ==> ascii_lower(#[trigger] a[i]) == ascii_lower(b[i])
}

fn lower_char(c: char) -> (l: u32)
    ensures
        l == ascii_lower(c),
{
    let v = c as u32;
    if 'A' <= c && c <= 'Z' {
        v + 32
    } else {
        v
    }
}

fn word_is(word: &Vec<char>, expected: &str) -> (b: bool)
    ensures
        b == eq_ignore_ascii_case(word@, expected@),
{
    let e = chars_of(expected);
    if word.len() != e.len() {
        return false;
    }
    let mut i: usize = 0;
    while i < word.len()
        invariant
            word@.len() == e@.len(),
            e@ == expected@,
            i <= word@.len(),
            forall|k: int| 0 <= k < i ==> ascii_lower(#[trigger] word@[k]) == ascii_lower(e@[k]),
        decreases word@.len() - i,
    {
        if lower_char(word[i]) != lower_char(e[i]) {
            return false;
        }
        i = i + 1;
    }
    true
}

/// Decimal value of a run of ASCII digits.
pub open spec fn digits_value(s: Seq<char>) -> nat
    decreases s.len(),
{
    if s.len() == 0 {
        0
    } else {
        digits_value(s.drop_last()) * 10 + ((s.last() as u32) - ('0' as u32)) as nat
    }
}

pub open spec fn all_digits(s: Seq<char>) -> bool {
    forall|i: int| 0 <= i < s.len() ==> '0' <= #[trigger] s[i] <= '9'
}

/// The digits of an unsigned decimal text: a leading `+` is dropped.
pub open spec fn unsigned_digits(s: Seq<char>) -> Seq<char> {
    if s.len() > 0 && s[0] == '+' {
        s.drop_first()
    } else {
        s
    }
}

/// The value of `s` as `usize::from_str` reads it: an optional `+`, then at
/// least one ASCII digit, and a value that fits in `usize`.
pub open spec fn usize_text_value(s: Seq<char>) -> Option<nat> {
    let d = unsigned_digits(s);
    if d.len() > 0 && all_digits(d) && digits_value(d) <= usize::MAX {
        Some(digits_value(d))
    } else {
        None
    }
}

proof fn lemma_digits_prefix(s: Seq<char>, i: int)
    requires
        0 <= i <= s.len(),
        all_digits(s),
    ensures
        digits_value(s.take(i)) <= digits_value(s),
    decreases s.len() - i,
{
    if i < s.len() {
        lemma_digits_prefix(s, i + 1);
        assert(s.take(i + 1).drop_last() =~= s.take(i));
        assert('0' <= s.take(i + 1).last() <= '9');
    } else {
        assert(s.take(i) =~= s);
    }
}

/// Reads an unsigned decimal word.
pub fn parse_usize_chars(word: &Vec<char>) -> (v: Option<usize>)
    ensures
        v == (match usize_text_value(word@) {
            Some(n) => Some(n as usize),
            None => None::<usize>,
        }),
{
    let start: usize = if word.len() > 0 && word[0] == '+' { 1 } else { 0 };
    let ghost d = unsigned_digits(word@);
    assert(d =~= word@.skip(start as int));
    if start >= word.len() {
        return None;
    }
    let mut value: usize = 0;
    let mut i = start;
    while i < word.len()
        invariant
            d == unsigned_digits(word@),
            d == word@.skip(start as int),
            start <= i <= word@.len(),
            all_digits(word@.subrange(start as int, i as int)),
            value == digits_value(word@.subrange(start as int, i as int)),
        decreases word@.len() - i,
    {
        let c = word[i];
        proof {
            assert(word@.subrange(start as int, i + 1).drop_last() =~= word@.subrange(start as int, i as int));
            assert(word@.subrange(start as int, i + 1).last() == c);
        }
        if c < '0' || c > '9' {
            assert(!all_digits(d)) by {
                assert(d[i - start] == c);
            }
            return None;
        }
        let digit = (c as u32 - '0' as u32) as usize;
        let next = match value.checked_mul(10) {
            Some(t) => t.checked_add(digit),
            None => None,
        };
        match next {
            Some(n) => {
                value = n;
            },
            None => {
                proof {
                    let prefix = word@.subrange(start as int, i + 1);
                    assert(digits_value(prefix) > usize::MAX);
                    if all_digits(d) {
                        assert(prefix =~= d.take(i + 1 - start));
                        lemma_digits_prefix(d, i + 1 - start);
                    }
                }
                return None;
            },
        }
        i = i + 1;
        assert(all_digits(word@.subrange(start as int, i as int))) by {
            assert forall|k: int| 0 <= k < i - start implies '0' <= #[trigger] word@.subrange(
                start as int,
                i as int,
            )[k] <= '9' by {
                if k < i - 1 - start {
                    assert(word@.subrange(start as int, i as int)[k] == word@.subrange(
                        start as int,
                        i - 1,
                    )[k]);
                }
            }
        }
    }
    assert(word@.subrange(start as int, i as int) =~= d);
    Some(value)
}

/// The message of a word that does not read as an unsigned number.
#[verifier::external_body]
fn invalid_field_message(what: &str, word: &Vec<char>) -> (msg: String)
    ensures
        msg@ == "invalid "@ + what@ + " '"@ + word@ + "'"@,
{
    format!("invalid {} '{}'", what, word.iter().collect::<String>())
}

/// Reads an unsigned decimal number, or reports which field it was meant
/// to be.
pub fn parse_usize(text: &str, what: &str) -> (result: Result<usize, MatrixMarketError>)
    ensures
        result matches Ok(v) ==> usize_text_value(text@) == Some(v as nat),
        usize_text_value(text@) is None <==> result is Err,
        result matches Err(e) ==> (e matches MatrixMarketError::Format(msg) && msg@ == "invalid "@
            + what@ + " '"@ + text@ + "'"@),
{
    let word = chars_of(text);
    match parse_usize_chars(&word) {
        Some(v) => Ok(v),
        None => {
            let mut msg = "invalid ".to_owned();
            msg.append(what);
            msg.append(" '");
            msg.append(text);
            msg.append("'");
            Err(MatrixMarketError::Format(msg))
        },
    }
}

fn parse_field(word: &Vec<char>, what: &str) -> (result: Result<usize, MatrixMarketError>)
    ensures
        result matches Ok(v) ==> usize_text_value(word@) == Some(v as nat),
        usize_text_value(word@) is None <==> result is Err,
        result matches Err(e) ==> (e matches MatrixMarketError::Format(msg) && msg@ == "invalid "@
            + what@ + " '"@ + word@ + "'"@),
{
    match parse_usize_chars(word) {
        Some(v) => Ok(v),
        None => Err(MatrixMarketError::Format(invalid_field_message(what, word))),
    }
}

/// A format error with a fixed message.
pub open spec fn format_error(e: MatrixMarketError, msg: &str) -> bool {
    e matches MatrixMarketError::Format(m) && m@ == msg@
}

/// The result is a format error with a fixed message.
pub open spec fn fails_with<T>(result: Result<T, MatrixMarketError>, msg: &str) -> bool {
    match result {
        Err(e) => format_error(e, msg),
        Ok(_) => false,
    }
}

/// The result is a format error naming a word that is not a number.
pub open spec fn fails_on_word<T>(result: Result<T, MatrixMarketError>, prefix: &str, word: Seq<char>) -> bool {
    match result {
        Err(MatrixMarketError::Format(m)) => m@ == prefix@ + word + "'"@,
        _ => false,
    }
}

fn format_err(msg: &str) -> (e: MatrixMarketError)
    ensures
        format_error(e, msg),
{
    MatrixMarketError::Format(msg.to_owned())
}

/// The symmetry a banner declares, when it is one this reader supports.
pub open spec fn banner_symmetry(w: Seq<Seq<char>>) -> Option<MatrixMarketSymmetry> {
    if eq_ignore_ascii_case(w[4], "general"@) {
        Some(MatrixMarketSymmetry::General)
    } else if eq_ignore_ascii_case(w[4], "symmetric"@) {
        Some(MatrixMarketSymmetry::Symmetric)
    } else {
        None
    }
}

/// Reads the banner line. Without one the file is refused; the banner must
/// read `%%MatrixMarket matrix coordinate <field> <symmetry>` (up to ASCII
/// case), with a real or integer field and a general or symmetric matrix.
pub fn parse_header(line: Option<&str>) -> (result: Result<MatrixMarketSymmetry, MatrixMarketError>)
    ensures
        line is None ==> fails_with(result, "missing header"),
        line matches Some(l) ==> ({
            let w = words(l@);
            if !(w.len() == 5 && eq_ignore_ascii_case(w[0], "%%MatrixMarket"@)
                && eq_ignore_ascii_case(w[1], "matrix"@) && eq_ignore_ascii_case(w[2], "coordinate"@)) {
                fails_with(result, "expected '%%MatrixMarket matrix coordinate <field> <symmetry>'")
            } else if !(eq_ignore_ascii_case(w[3], "real"@) || eq_ignore_ascii_case(w[3], "integer"@)) {
                fails_with(result, "only real and integer coordinate matrices are supported")
            } else {
                match banner_symmetry(w) {
                    Some(s) => result == Ok::<MatrixMarketSymmetry, MatrixMarketError>(s),
                    None => fails_with(result, "only general and symmetric matrices are supported"),
                }
            }
        }),
{
    let l = match line {
        Some(l) => l,
        None => return Err(format_err("missing header")),
    };
    let w = split_words(&chars_of(l));
    proof {
        if w@.len() == 5 {
            assert(w@[0]@ == words(l@)[0] && w@[1]@ == words(l@)[1] && w@[2]@ == words(l@)[2]);
            assert(w@[3]@ == words(l@)[3] && w@[4]@ == words(l@)[4]);
        }
    }
    if w.len() != 5 || !word_is(&w[0], "%%MatrixMarket") || !word_is(&w[1], "matrix") || !word_is(
        &w[2],
        "coordinate",
    ) {
        return Err(format_err("expected '%%MatrixMarket matrix coordinate <field> <symmetry>'"));
    }
    if !(word_is(&w[3], "real") || word_is(&w[3], "integer")) {
        return Err(format_err("only real and integer coordinate matrices are supported"));
    }
    if word_is(&w[4], "general") {
        Ok(MatrixMarketSymmetry::General)
    } else if word_is(&w[4], "symmetric") {
        Ok(MatrixMarketSymmetry::Symmetric)
    } else {
        Err(format_err("only general and symmetric matrices are supported"))
    }
}

/// A line that is blank or whose first non-blank character is `%`.
pub open spec fn blank_or_comment(s: Seq<char>) -> bool {
    forall|i: int|
        0 <= i < s.len() && !is_ws(#[trigger] s[i]) && (forall|j: int| 0 <= j < i ==> is_ws(s[j]))
            ==> s[i] == '%'
}

/// Whether a line is skipped between the banner, the size line and the
/// entries: it is blank or a comment.
pub fn is_blank_or_comment(line: &str) -> (skip: bool)
    ensures
        skip == blank_or_comment(line@),
{
    let c = chars_of(line);
    let mut i: usize = 0;
    while i < c.len()
        invariant
            c@ == line@,
            i <= c@.len(),
            forall|j: int| 0 <= j < i ==> is_ws(#[trigger] c@[j]),
        decreases c@.len() - i,
    {
        if !is_whitespace_char(c[i]) {
            let skip = c[i] == '%';
            proof {
                if skip {
                    assert forall|k: int|
                        0 <= k < c@.len() && !is_ws(#[trigger] c@[k]) && (forall|j: int|
                            0 <= j < k ==> is_ws(c@[j])) implies c@[k] == '%' by {
                        if k > i {
                            assert(is_ws(c@[i as int]));
                        }
                    }
                } else {
                    assert(!is_ws(c@[i as int]) && (forall|j: int| 0 <= j < i ==> is_ws(c@[j])));
                }
            }
            return skip;
        }
        i = i + 1;
    }
    true
}

/// Reads the size line `nrows ncols nnz`. Its absence, a word count other
/// than three, a word that is not a number, dimensions beyond `u32`, and a
/// non-square symmetric matrix are refused, in that order.
pub fn parse_size_line(line: Option<&str>, symmetry: MatrixMarketSymmetry) -> (result: Result<
    (usize, usize, usize),
    MatrixMarketError,
>)
    ensures
        line is None ==> fails_with(result, "missing matrix size line"),
        line matches Some(l) ==> ({
            let w = words(l@);
            if w.len() != 3 {
                fails_with(result, "size line must contain nrows ncols nnz")
            } else if usize_text_value(w[0]) is None {
                fails_on_word(result, "invalid nrows '", w[0])
            } else if usize_text_value(w[1]) is None {
                fails_on_word(result, "invalid ncols '", w[1])
            } else if usize_text_value(w[2]) is None {
                fails_on_word(result, "invalid nnz '", w[2])
            } else {
                let nrows = usize_text_value(w[0])->0;
                let ncols = usize_text_value(w[1])->0;
                let nnz = usize_text_value(w[2])->0;
                if nrows > u32::MAX || ncols > u32::MAX {
                    result == Err::<(usize, usize, usize), MatrixMarketError>(
                        MatrixMarketError::Matrix(HybitError::SizeOverflow),
                    )
                } else if symmetry == MatrixMarketSymmetry::Symmetric && nrows != ncols {
                    fails_with(result, "symmetric Matrix Market matrix must be square")
                } else {
                    result == Ok::<(usize, usize, usize), MatrixMarketError>(
                        (nrows as usize, ncols as usize, nnz as usize),
                    )
                }
            }
        }),
{
    let l = match line {
        Some(l) => l,
        None => return Err(format_err("missing matrix size line")),
    };
    let w = split_words(&chars_of(l));
    if w.len() != 3 {
        return Err(format_err("size line must contain nrows ncols nnz"));
    }
    proof {
        assert(w@[0]@ == words(l@)[0] && w@[1]@ == words(l@)[1] && w@[2]@ == words(l@)[2]);
        reveal_strlit("nrows");
        reveal_strlit("ncols");
        reveal_strlit("nnz");
        reveal_strlit("invalid ");
        reveal_strlit(" '");
        reveal_strlit("invalid nrows '");
        reveal_strlit("invalid ncols '");
        reveal_strlit("invalid nnz '");
        assert("invalid "@ + "nrows"@ + " '"@ =~= "invalid nrows '"@);
        assert("invalid "@ + "ncols"@ + " '"@ =~= "invalid ncols '"@);
        assert("invalid "@ + "nnz"@ + " '"@ =~= "invalid nnz '"@);
    }
    let nrows = parse_field(&w[0], "nrows")?;
    let ncols = parse_field(&w[1], "ncols")?;
    let nnz = parse_field(&w[2], "nnz")?;
    if nrows > 0xffff_ffff || ncols > 0xffff_ffff {
        return Err(MatrixMarketError::Matrix(HybitError::SizeOverflow));
    }
    if matches!(symmetry, MatrixMarketSymmetry::Symmetric) && nrows != ncols {
        return Err(format_err("symmetric Matrix Market matrix must be square"));
    }
    Ok((nrows, ncols, nnz))
}

/// Reads a coordinate entry line `row col value` of a matrix with `nrows`
/// rows and `ncols` columns, after `read_entries` of the declared
/// `input_entries` have been read. Refused, in order: an entry beyond the
/// declared count, a word count other than three, an index that is not a
/// number, and one-based indices outside the matrix. The value's text is
/// handed back unread; a symmetric matrix mirrors every off-diagonal entry.
pub fn parse_entry_line(
    line: &str,
    nrows: usize,
    ncols: usize,
    symmetry: MatrixMarketSymmetry,
    input_entries: usize,
    read_entries: usize,
) -> (result: Result<CoordinateEntry, MatrixMarketError>)
    requires
        nrows <= u32::MAX,
        ncols <= u32::MAX,
    ensures
        read_entries >= input_entries ==> fails_with(
            result,
            "more data entries than declared in size line",
        ),
        read_entries < input_entries ==> ({
            let w = words(line@);
            if w.len() != 3 {
                fails_with(result, "coordinate entry must contain row column value")
            } else if usize_text_value(w[0]) is None {
                fails_on_word(result, "invalid row index '", w[0])
            } else if usize_text_value(w[1]) is None {
                fails_on_word(result, "invalid column index '", w[1])
            } else {
                let row1 = usize_text_value(w[0])->0;
                let col1 = usize_text_value(w[1])->0;
                if row1 == 0 || row1 > nrows || col1 == 0 || col1 > ncols {
                    fails_with(
                        result,
                        "Matrix Market indices are 1-based and must lie inside matrix dimensions",
                    )
                } else {
                    result matches Ok(entry) && entry.row == row1 - 1 && entry.col == col1 - 1
                        && entry.value_text@ == w[2] && entry.mirror == (symmetry
                        == MatrixMarketSymmetry::Symmetric && row1 != col1)
                }
            }
        }),
{
    if read_entries >= input_entries {
        return Err(format_err("more data entries than declared in size line"));
    }
    let w = split_words(&chars_of(line));
    if w.len() != 3 {
        return Err(format_err("coordinate entry must contain row column value"));
    }
    proof {
        assert(w@[0]@ == words(line@)[0] && w@[1]@ == words(line@)[1] && w@[2]@ == words(line@)[2]);
        reveal_strlit("row index");
        reveal_strlit("column index");
        reveal_strlit("invalid ");
        reveal_strlit(" '");
        reveal_strlit("invalid row index '");
        reveal_strlit("invalid column index '");
        assert("invalid "@ + "row index"@ + " '"@ =~= "invalid row index '"@);
        assert("invalid "@ + "column index"@ + " '"@ =~= "invalid column index '"@);
    }
    let row1 = parse_field(&w[0], "row index")?;
    let col1 = parse_field(&w[1], "column index")?;
    if row1 == 0 || row1 > nrows || col1 == 0 || col1 > ncols {
        return Err(
            format_err("Matrix Market indices are 1-based and must lie inside matrix dimensions"),
        );
    }
    let row = (row1 - 1) as u32;
    let col = (col1 - 1) as u32;
    let value_text = copy_chars(&w[2]);
    let mirror = matches!(symmetry, MatrixMarketSymmetry::Symmetric) && row != col;
    Ok(CoordinateEntry { row, col, value_text, mirror })
}

fn copy_chars(a: &Vec<char>) -> (c: Vec<char>)
    ensures
        c@ == a@,
{
    let mut c: Vec<char> = Vec::new();
    let mut i: usize = 0;
    while i < a.len()
        invariant
            i <= a@.len(),
            c@ == a@.take(i as int),
        decreases a@.len() - i,
    {
        c.push(a[i]);
        i = i + 1;
        assert(c@ =~= a@.take(i as int));
    }
    assert(a@.take(i as int) =~= a@);
    c
}

/// The character of decimal digit `d`.
pub open spec fn digit_char(d: nat) -> char {
    (48 + d) as char
}

/// The decimal digits of `n`, most significant first, with no leading
/// zero: how `Display` writes an unsigned integer.
pub open spec fn decimal(n: nat) -> Seq<char>
    decreases n,
{
    if n < 10 {
        seq![digit_char(n)]
    } else {
        decimal(n / 10).push(digit_char(n % 10))
    }
}

/// The message of an entry count that differs from the size line.
pub open spec fn entry_count_text(declared: nat, read: nat) -> Seq<char> {
    "size line declares "@ + decimal(declared) + " entries but "@ + decimal(read) + " were read"@
}

/// Formats the message with `format!`; both counts are written in decimal,
/// as `Display` writes unsigned integers.
#[verifier::external_body]
fn entry_count_message(declared: usize, read: usize) -> (msg: String)
    ensures
        msg@ == entry_count_text(declared as nat, read as nat),
{
    format!("size line declares {} entries but {} were read", declared, read)
}

/// At the end of the input, the number of entries read must be the number
/// the size line declared.
pub fn check_entry_count(input_entries: usize, read_entries: usize) -> (result: Result<(), MatrixMarketError>)
    ensures
        result is Ok <==> read_entries == input_entries,
        result matches Err(e) ==> e matches MatrixMarketError::Format(m) && m@ == entry_count_text(
            input_entries as nat,
            read_entries as nat,
        ),
{
    if read_entries != input_entries {
        return Err(MatrixMarketError::Format(entry_count_message(input_entries, read_entries)));
    }
    Ok(())
}

/// Coordinate `a` comes before coordinate `b` in row-major order.
pub open spec fn coord_lt(a: (u32, u32), b: (u32, u32)) -> bool {
    a.0 < b.0 || (a.0 == b.0 && a.1 < b.1)
}

/// `a` comes no later than `b` in the order of (row, column, entry).
pub open spec fn triple_le(a: (u32, u32, usize), b: (u32, u32, usize)) -> bool {
    a.0 < b.0 || (a.0 == b.0 && (a.1 < b.1 || (a.1 == b.1 && a.2 <= b.2)))
}

/// The coordinate of a group of entries.
pub open spec fn group_key(g: (u32, u32, Vec<usize>)) -> (u32, u32) {
    (g.0, g.1)
}

/// Entry `k` is listed in the group of its coordinate.
pub open spec fn holds_entry(groups: Seq<(u32, u32, Vec<usize>)>, coords: Seq<(u32, u32)>, k: int) -> bool {
    exists|g: int|
        0 <= g < groups.len() && group_key(#[trigger] groups[g]) == coords[k] && groups[g].2@.contains(k as usize)
}

/// Sorts (row, column, entry) triples ascending with the standard unstable
/// sort; tuples order lexicographically. The result is a permutation of
/// the input, in ascending order.
#[verifier::external_body]
fn sort_triples(v: &mut Vec<(u32, u32, usize)>)
    ensures
        final(v)@.to_multiset() == old(v)@.to_multiset(),
        forall|i: int, j: int| 0 <= i < j < final(v)@.len() ==> triple_le(#[trigger] final(v)@[i], #[trigger] final(v)@[j]),
{
    v.sort_unstable();
}

/// The entries sorted by (row, column, entry), with no triple twice.
fn sorted_entry_triples(coords: &Vec<(u32, u32)>) -> (s: Vec<(u32, u32, usize)>)
    ensures
        s@.len() == coords@.len(),
        forall|j: int| 0 <= j < s@.len() ==> (#[trigger] s@[j]).2 < coords@.len() && coords@[s@[j].2 as int] == (s@[j].0, s@[j].1),
        forall|i: int, j: int| 0 <= i < j < s@.len() ==> triple_le(#[trigger] s@[i], #[trigger] s@[j]) && s@[i] != s@[j],
        forall|k: int| 0 <= k < coords@.len() ==> #[trigger] s@.contains((coords@[k].0, coords@[k].1, k as usize)),
{
    let n = coords.len();
    let mut v: Vec<(u32, u32, usize)> = Vec::new();
    let mut k: usize = 0;
    while k < n
        invariant
            n == coords@.len(),
            k <= n,
            v@.len() == k,
            forall|j: int| 0 <= j < k ==> #[trigger] v@[j] == (coords@[j].0, coords@[j].1, j as usize),
        decreases n - k,
    {
        v.push((coords[k].0, coords[k].1, k));
        k = k + 1;
    }
    let ghost before = v@;
    proof {
        assert(before.no_duplicates()) by {
            assert forall|i: int, j: int| 0 <= i < before.len() && 0 <= j < before.len() && i != j implies before[i]
                != before[j] by {
                assert(before[i].2 == i as usize && before[j].2 == j as usize);
            }
        }
        before.lemma_multiset_has_no_duplicates();
    }
    sort_triples(&mut v);
    proof {
        broadcast use vstd::seq_lib::group_to_multiset_ensures;

        assert(v@.to_multiset() == before.to_multiset());
        assert(before.len() == n);
        assert(v@.to_multiset().len() == before.to_multiset().len());
        assert(v@.len() == n);
        v@.lemma_multiset_has_no_duplicates_conv();
        assert forall|j: int| 0 <= j < v@.len() implies (#[trigger] v@[j]).2 < coords@.len() && coords@[v@[j].2 as int]
            == (v@[j].0, v@[j].1) by {
            assert(v@.to_multiset().count(v@[j]) > 0);
            assert(before.contains(v@[j]));
            let i = choose|i: int| 0 <= i < before.len() && before[i] == v@[j];
        }
        assert forall|k: int| 0 <= k < coords@.len() implies #[trigger] v@.contains((coords@[k].0, coords@[k].1, k as usize)) by {
            assert(before[k] == (coords@[k].0, coords@[k].1, k as usize));
            assert(before.to_multiset().count(before[k]) > 0);
        }
    }
    v
}

/// The distinct (row, column) coordinates of the entries in row-major
/// order, each with the increasing list of the entries that hold it: the
/// duplicates a sparse matrix file may list, brought together.
pub fn group_coordinates(coords: &Vec<(u32, u32)>) -> (groups: Vec<(u32, u32, Vec<usize>)>)
    ensures
        forall|g: int| 0 <= g < groups@.len() ==> (#[trigger] groups@[g]).2@.len() >= 1,
        forall|g: int, i: int|
            0 <= g < groups@.len() && 0 <= i < groups@[g].2@.len() ==> (#[trigger] groups@[g].2@[i]) < coords@.len()
                && coords@[groups@[g].2@[i] as int] == group_key(groups@[g]),
        forall|g: int, i: int, l: int|
            0 <= g < groups@.len() && 0 <= i < l < groups@[g].2@.len() ==> #[trigger] groups@[g].2@[i]
                < #[trigger] groups@[g].2@[l],
        forall|g: int, h: int|
            0 <= g < h < groups@.len() ==> coord_lt(group_key(#[trigger] groups@[g]), group_key(#[trigger] groups@[h])),
        forall|k: int| 0 <= k < coords@.len() ==> #[trigger] holds_entry(groups@, coords@, k),
{
    let s = sorted_entry_triples(coords);
    let n = s.len();
    let mut groups: Vec<(u32, u32, Vec<usize>)> = Vec::new();
    let mut cur: Vec<usize> = Vec::new();
    let mut cur_row: u32 = 0;
    let mut cur_col: u32 = 0;
    let mut i: usize = 0;
    while i < n
        invariant
            n == s@.len(),
            n == coords@.len(),
            i <= n,
            forall|j: int| 0 <= j < s@.len() ==> (#[trigger] s@[j]).2 < coords@.len() && coords@[s@[j].2 as int] == (s@[j].0, s@[j].1),
            forall|a: int, b: int| 0 <= a < b < s@.len() ==> triple_le(#[trigger] s@[a], #[trigger] s@[b]) && s@[a] != s@[b],
            i == 0 ==> groups@.len() == 0 && cur@.len() == 0,
            i > 0 ==> cur@.len() >= 1 && cur_row == s@[i - 1].0 && cur_col == s@[i - 1].1 && cur@[cur@.len() - 1] == s@[i - 1].2,
            forall|g: int| 0 <= g < groups@.len() ==> (#[trigger] groups@[g]).2@.len() >= 1,
            forall|g: int, e: int|
                0 <= g < groups@.len() && 0 <= e < groups@[g].2@.len() ==> (#[trigger] groups@[g].2@[e]) < coords@.len()
                    && coords@[groups@[g].2@[e] as int] == group_key(groups@[g]),
            forall|g: int, e: int, l: int|
                0 <= g < groups@.len() && 0 <= e < l < groups@[g].2@.len() ==> #[trigger] groups@[g].2@[e]
                    < #[trigger] groups@[g].2@[l],
            forall|g: int, h: int|
                0 <= g < h < groups@.len() ==> coord_lt(group_key(#[trigger] groups@[g]), group_key(#[trigger] groups@[h])),
            forall|g: int| 0 <= g < groups@.len() ==> coord_lt(group_key(#[trigger] groups@[g]), (cur_row, cur_col)),
            forall|e: int| 0 <= e < cur@.len() ==> (#[trigger] cur@[e]) < coords@.len() && coords@[cur@[e] as int] == (cur_row, cur_col),
            forall|e: int, l: int| 0 <= e < l < cur@.len() ==> #[trigger] cur@[e] < #[trigger] cur@[l],
            forall|j: int|
                0 <= j < i ==> ((s@[j].0, s@[j].1) == (cur_row, cur_col) && cur@.contains(#[trigger] s@[j].2)) || exists|
                    g: int,
                | 0 <= g < groups@.len() && group_key(#[trigger] groups@[g]) == (s@[j].0, s@[j].1) && groups@[g].2@.contains(
                    s@[j].2,
                ),
        decreases n - i,
    {
        let t = s[i];
        if i > 0 && t.0 == cur_row && t.1 == cur_col {
            let ghost old_cur = cur@;
            proof {
                assert(triple_le(s@[i - 1], s@[i as int]) && s@[i - 1] != s@[i as int]);
            }
            cur.push(t.2);
            proof {
                assert forall|e: int, l: int| 0 <= e < l < cur@.len() implies #[trigger] cur@[e] < #[trigger] cur@[l] by {
                    if l == cur@.len() - 1 && e < old_cur.len() - 1 {
                        assert(old_cur[e] < old_cur[old_cur.len() - 1]);
                    }
                }
                assert forall|j: int|
                    0 <= j < i + 1 implies ((s@[j].0, s@[j].1) == (cur_row, cur_col) && cur@.contains(#[trigger] s@[j].2))
                    || exists|g: int|
                        0 <= g < groups@.len() && group_key(#[trigger] groups@[g]) == (s@[j].0, s@[j].1) && groups@[g].2@.contains(
                            s@[j].2,
                        ) by {
                    if j == i as int {
                        assert(cur@[cur@.len() - 1] == t.2);
                    } else if (s@[j].0, s@[j].1) == (cur_row, cur_col) && old_cur.contains(s@[j].2) {
                        let e = choose|e: int| 0 <= e < old_cur.len() && old_cur[e] == s@[j].2;
                        assert(cur@[e] == s@[j].2);
                    }
                }
            }
        } else {
            let ghost old_groups = groups@;
            let ghost old_cur = cur@;
            let ghost old_key = (cur_row, cur_col);
            proof {
                if i > 0 {
                    assert(triple_le(s@[i - 1], s@[i as int]));
                    assert(coord_lt(old_key, (t.0, t.1)));
                }
            }
            let mut fresh: Vec<usize> = Vec::new();
            fresh.push(t.2);
            let done = cur;
            cur = fresh;
            if i > 0 {
                groups.push((cur_row, cur_col, done));
            }
            cur_row = t.0;
            cur_col = t.1;
            proof {
                if i > 0 {
                    assert(groups@ == old_groups.push((old_key.0, old_key.1, done)));
                    assert(done@ == old_cur);
                    assert forall|g: int| 0 <= g < groups@.len() implies coord_lt(group_key(#[trigger] groups@[g]), (cur_row, cur_col)) by {
                        if g < old_groups.len() {
                            assert(coord_lt(group_key(old_groups[g]), old_key));
                        }
                    }
                    assert forall|g: int, h: int|
                        0 <= g < h < groups@.len() implies coord_lt(group_key(#[trigger] groups@[g]), group_key(#[trigger] groups@[h])) by {
                        if h == old_groups.len() {
                            assert(coord_lt(group_key(old_groups[g]), old_key));
                        } else {
                            assert(coord_lt(group_key(old_groups[g]), group_key(old_groups[h])));
                        }
                    }
                    assert forall|g: int, e: int|
                        0 <= g < groups@.len() && 0 <= e < groups@[g].2@.len() implies (#[trigger] groups@[g].2@[e]) < coords@.len()
                            && coords@[groups@[g].2@[e] as int] == group_key(groups@[g]) by {
                        if g < old_groups.len() {
                            assert(groups@[g] == old_groups[g]);
                        } else {
                            assert(old_cur[e] == groups@[g].2@[e]);
                        }
                    }
                    assert forall|g: int, e: int, l: int|
                        0 <= g < groups@.len() && 0 <= e < l < groups@[g].2@.len() implies #[trigger] groups@[g].2@[e]
                            < #[trigger] groups@[g].2@[l] by {
                        if g < old_groups.len() {
                            assert(groups@[g] == old_groups[g]);
                        } else {
                            assert(old_cur[e] < old_cur[l]);
                        }
                    }
                    assert forall|g: int| 0 <= g < groups@.len() implies (#[trigger] groups@[g]).2@.len() >= 1 by {
                        if g < old_groups.len() {
                            assert(groups@[g] == old_groups[g]);
                        }
                    }
                }
                assert forall|j: int|
                    0 <= j < i + 1 implies ((s@[j].0, s@[j].1) == (cur_row, cur_col) && cur@.contains(#[trigger] s@[j].2))
                    || exists|g: int|
                        0 <= g < groups@.len() && group_key(#[trigger] groups@[g]) == (s@[j].0, s@[j].1) && groups@[g].2@.contains(
                            s@[j].2,
                        ) by {
                    if j == i as int {
                        assert(cur@[0] == t.2);
                    } else if (s@[j].0, s@[j].1) == old_key && old_cur.contains(s@[j].2) {
                        let g = old_groups.len() as int;
                        assert(groups@[g] == (old_key.0, old_key.1, done));
                    } else {
                        let g = choose|g: int|
                            0 <= g < old_groups.len() && group_key(#[trigger] old_groups[g]) == (s@[j].0, s@[j].1)
                                && old_groups[g].2@.contains(s@[j].2);
                        assert(groups@[g] == old_groups[g]);
                    }
                }
            }
        }
        i = i + 1;
    }
    let ghost last_groups = groups@;
    let ghost last_cur = cur@;
    if n > 0 {
        let ghost old_groups = groups@;
        groups.push((cur_row, cur_col, cur));
        proof {
            assert forall|g: int, h: int|
                0 <= g < h < groups@.len() implies coord_lt(group_key(#[trigger] groups@[g]), group_key(#[trigger] groups@[h])) by {
                if h == old_groups.len() {
                    assert(coord_lt(group_key(old_groups[g]), (cur_row, cur_col)));
                } else {
                    assert(coord_lt(group_key(old_groups[g]), group_key(old_groups[h])));
                }
            }
            assert forall|g: int, e: int|
                0 <= g < groups@.len() && 0 <= e < groups@[g].2@.len() implies (#[trigger] groups@[g].2@[e]) < coords@.len()
                    && coords@[groups@[g].2@[e] as int] == group_key(groups@[g]) by {
                if g < old_groups.len() {
                    assert(groups@[g] == old_groups[g]);
                }
            }
            assert forall|g: int, e: int, l: int|
                0 <= g < groups@.len() && 0 <= e < l < groups@[g].2@.len() implies #[trigger] groups@[g].2@[e]
                    < #[trigger] groups@[g].2@[l] by {
                if g < old_groups.len() {
                    assert(groups@[g] == old_groups[g]);
                }
            }
            assert forall|g: int| 0 <= g < groups@.len() implies (#[trigger] groups@[g]).2@.len() >= 1 by {
                if g < old_groups.len() {
                    assert(groups@[g] == old_groups[g]);
                }
            }
        }
    }
    proof {
        assert forall|k: int| 0 <= k < coords@.len() implies #[trigger] holds_entry(groups@, coords@, k) by {
            let target = (coords@[k].0, coords@[k].1, k as usize);
            assert(s@.contains(target));
            let j = choose|j: int| 0 <= j < s@.len() && s@[j] == target;
            assert(s@[j].2 == k as usize);
            assert(coords@[s@[j].2 as int] == (s@[j].0, s@[j].1));
            if (s@[j].0, s@[j].1) == (cur_row, cur_col) && last_cur.contains(s@[j].2) {
                let g = last_groups.len() as int;
                assert(groups@[g].2@ == last_cur);
                assert(group_key(groups@[g]) == coords@[k]);
            } else {
                let g = choose|g: int|
                    0 <= g < last_groups.len() && group_key(#[trigger] last_groups[g]) == (s@[j].0, s@[j].1)
                        && last_groups[g].2@.contains(s@[j].2);
                assert(groups@[g] == last_groups[g]);
                assert(group_key(groups@[g]) == coords@[k]);
            }
        }
    }
    groups
}

/// Row pointers of `nrows` rows for entries sorted by row: entry `k`
/// belongs to row `rows[k]`. More than `u32::MAX` entries overflow the
/// 32-bit pointers.
pub fn csr_row_pointers(nrows: usize, rows: &[u32]) -> (result: Result<Vec<u32>, MatrixMarketError>)
    requires
        nrows < usize::MAX,
        forall|k: int| 0 <= k < rows@.len() ==> #[trigger] rows@[k] < nrows,
        forall|a: int, b: int| 0 <= a <= b < rows@.len() ==> rows@[a] <= rows@[b],
    ensures
        rows@.len() > u32::MAX <==> result is Err,
        result matches Err(e) ==> e matches MatrixMarketError::Matrix(HybitError::SizeOverflow),
        result matches Ok(ptr) ==> {
            &&& ptr@.len() == nrows + 1
            &&& forall|r: int| 0 <= r <= nrows ==> #[trigger] ptr@[r] <= rows@.len()
            &&& forall|r: int, k: int|
                0 <= r <= nrows && 0 <= k < rows@.len() ==> (k < #[trigger] ptr@[r] <==> #[trigger] rows@[k] < r)
        },
{
    if rows.len() > 0xffff_ffff {
        return Err(MatrixMarketError::Matrix(HybitError::SizeOverflow));
    }
    let mut ptr: Vec<u32> = Vec::new();
    let mut p: usize = 0;
    let mut r: usize = 0;
    while r <= nrows
        invariant
            nrows < usize::MAX,
            rows@.len() <= u32::MAX,
            r == 0 ==> p == 0,
            forall|k: int| 0 <= k < rows@.len() ==> #[trigger] rows@[k] < nrows,
            forall|a: int, b: int| 0 <= a <= b < rows@.len() ==> rows@[a] <= rows@[b],
            r <= nrows + 1,
            ptr@.len() == r,
            p <= rows@.len(),
            r > 0 ==> forall|k: int| 0 <= k < rows@.len() ==> (k < p <==> #[trigger] rows@[k] < r - 1),
            forall|q: int| 0 <= q < r ==> #[trigger] ptr@[q] <= rows@.len(),
            forall|q: int, k: int|
                0 <= q < r && 0 <= k < rows@.len() ==> (k < #[trigger] ptr@[q] <==> #[trigger] rows@[k] < q),
        decreases nrows + 1 - r,
    {
        while p < rows.len() && (rows[p] as usize) < r
            invariant
                rows@.len() <= u32::MAX,
                forall|a: int, b: int| 0 <= a <= b < rows@.len() ==> rows@[a] <= rows@[b],
                p <= rows@.len(),
                forall|k: int| 0 <= k < p ==> #[trigger] rows@[k] < r,
            decreases rows@.len() - p,
        {
            p = p + 1;
        }
        proof {
            assert forall|k: int| 0 <= k < rows@.len() implies (k < p <==> #[trigger] rows@[k] < r) by {
                if k >= p && p < rows@.len() {
                    assert(rows@[p as int] >= r);
                    assert(rows@[p as int] <= rows@[k]);
                }
            }
        }
        ptr.push(p as u32);
        r = r + 1;
    }
    Ok(ptr)
}

} // verus!
