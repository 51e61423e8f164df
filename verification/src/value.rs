//! Data types carried on node sockets and the values that flow through them.
use vstd::prelude::*;

verus! {

/// The kind of data a socket carries.
#[derive(Debug, Clone, Copy, PartialEq, Eq, Structural)]
pub enum MyDataType {
    Isize,
    String,
}

/// The colour (red, green, blue) in which sockets of a data type are drawn.
pub open spec fn color_of(t: MyDataType) -> Seq<u8> {
    match t {
        MyDataType::Isize => seq![68u8, 139u8, 211u8],
        MyDataType::String => seq![38u8, 209u8, 111u8],
    }
}

impl MyDataType {
    pub fn get_color(self) -> (rgb: [u8; 3])
        ensures
            rgb@ == color_of(self),
    {
        match self {
            MyDataType::Isize => [68, 139, 211],
            MyDataType::String => [38, 209, 111],
        }
    }
}

/// The mathematical content of a value: an integer or a text.
pub enum ValueView {
    Isize(isize),
    Text(Seq<char>),
}

/// A value held by an input socket or produced by a node.
#[derive(Debug)]
#[allow(inconsistent_fields)]
pub enum MyValueType {
    Isize { value: isize },
    String { value: String },
}

impl View for MyValueType {
    type V = ValueView;

    open spec fn view(&self) -> ValueView {
        match self {
            MyValueType::Isize { value } => ValueView::Isize(*value),
            MyValueType::String { value } => ValueView::Text(value@),
        }
    }
}

impl Clone for MyValueType {
    fn clone(&self) -> (copy: Self)
        ensures
            copy@ == self@,
    {
        match self {
            MyValueType::Isize { value } => MyValueType::Isize { value: *value },
            MyValueType::String { value } => MyValueType::String { value: value.clone() },
        }
    }
}

/// The data type of a value.
pub open spec fn type_of(v: ValueView) -> MyDataType {
    match v {
        ValueView::Isize(_) => MyDataType::Isize,
        ValueView::Text(_) => MyDataType::String,
    }
}

/// The integer a value stands for: its own integer, or 0 for a text.
pub open spec fn as_isize(v: ValueView) -> isize {
    match v {
        ValueView::Isize(n) => n,
        ValueView::Text(_) => 0,
    }
}

/// The text a value stands for: its own text, or the empty text for an integer.
pub open spec fn as_text(v: ValueView) -> Seq<char> {
    match v {
        ValueView::Isize(_) => Seq::empty(),
        ValueView::Text(s) => s,
    }
}

/// The ten decimal digits.
pub open spec fn digit_char(d: int) -> char {
    seq!['0', '1', '2', '3', '4', '5', '6', '7', '8', '9'][d]
}

/// The numeric value of a decimal digit character.
pub open spec fn digit_value(c: char) -> int {
    c as int - '0' as int
}

pub open spec fn is_digit(c: char) -> bool {
    '0' as int <= c as int <= '9' as int
}

/// Decimal digits of a natural number, most significant first, without leading zeros.
pub open spec fn nat_digits(n: nat) -> Seq<char>
    decreases n,
{
    if n < 10 {
        seq![digit_char(n as int)]
    } else {
        nat_digits(n / 10).push(digit_char((n % 10) as int))
    }
}

/// The text that `Display` writes for an integer: an optional minus sign and its decimal digits.
pub open spec fn decimal_text(v: int) -> Seq<char> {
    if v < 0 {
        seq!['-'] + nat_digits((-v) as nat)
    } else {
        nat_digits(v as nat)
    }
}

/// The number written by a sequence of decimal digits.
pub open spec fn digits_value(d: Seq<char>) -> int
    decreases d.len(),
{
    if d.len() == 0 {
        0
    } else {
        digits_value(d.drop_last()) * 10 + digit_value(d.last())
    }
}

pub open spec fn all_digits(d: Seq<char>) -> bool {
    d.len() > 0 && forall|i: int| 0 <= i < d.len() ==> is_digit(#[trigger] d[i])
}

/// The integer a text writes in decimal, with an optional leading `+` or `-`.
pub open spec fn signed_text_value(s: Seq<char>) -> Option<int> {
    let signed = s.len() > 0 && (s[0] == '-' || s[0] == '+');
    let body = if signed { s.skip(1) } else { s };
    if all_digits(body) {
        if s.len() > 0 && s[0] == '-' {
            Some(-digits_value(body))
        } else {
            Some(digits_value(body))
        }
    } else {
        None
    }
}

/// What `str::parse::<isize>` gives: the written integer when it fits in an `isize`.
pub open spec fn isize_from_text(s: Seq<char>) -> Option<isize> {
    match signed_text_value(s) {
        Some(v) => if isize::MIN <= v <= isize::MAX {
            Some(v as isize)
        } else {
            None
        },
        None => None,
    }
}

/// The character that a backslash followed by `c` stands for, if `c` names an escape.
pub open spec fn escaped_char(c: char) -> Option<char> {
    if c == 'n' {
        Some('\n')
    } else if c == 'r' {
        Some('\r')
    } else if c == 't' {
        Some('\t')
    } else if c == '0' {
        Some('\0')
    } else if c == '\\' {
        Some('\\')
    } else {
        None
    }
}

/// The text after escape sequences are replaced: `\n`, `\r`, `\t`, `\0` and `\\` become the
/// character they name; after a backslash followed by any other character, that character is
/// kept and then read again; a trailing backslash is kept.
pub open spec fn unescape(s: Seq<char>) -> Seq<char>
    decreases s.len(),
{
    if s.len() == 0 {
        Seq::empty()
    } else if s[0] == '\\' && s.len() >= 2 {
        match escaped_char(s[1]) {
            Some(e) => seq![e] + unescape(s.skip(2)),
            None => seq![s[1]] + unescape(s.skip(1)),
        }
    } else {
        seq![s[0]] + unescape(s.skip(1))
    }
}

/// `s` written `n` times in a row.
pub open spec fn repeat_text(s: Seq<char>, n: nat) -> Seq<char>
    decreases n,
{
    if n == 0 {
        Seq::empty()
    } else {
        repeat_text(s, (n - 1) as nat) + s
    }
}

pub proof fn lemma_repeat_empty(n: nat)
    ensures
        repeat_text(Seq::<char>::empty(), n) == Seq::<char>::empty(),
    decreases n,
{
    if n > 0 {
        lemma_repeat_empty((n - 1) as nat);
        assert(repeat_text(Seq::<char>::empty(), (n - 1) as nat) + Seq::<char>::empty()
            =~= Seq::<char>::empty());
    }
}

/// The largest number of characters a repeated text may have: beyond it the byte length
/// of the result (at most four bytes a character) could exceed what an allocation can hold.
pub open spec fn repeat_limit() -> int {
    isize::MAX / 4
}

/// Calls `str::parse::<isize>`; the result is the integer that the text writes in decimal,
/// with an optional sign, when it is in range, and `None` otherwise.
#[verifier::external_body]
fn parse_isize(text: &str) -> (parsed: Option<isize>)
    ensures
        parsed == isize_from_text(text@),
{
    text.parse::<isize>().ok()
}

/// Replaces the escape sequences of a text as `unescape` states; this is the behaviour of
/// `AsgoreCore::fix_escape_chars`.
fn fix_escape_chars(text: &str) -> (fixed: String)
    ensures
        fixed@ == unescape(text@),
{
    let len = text.unicode_len();
    let mut fixed = String::new();
    let mut i: usize = 0;
    proof {
        assert(text@.skip(0) =~= text@);
    }
    while i < len
        invariant
            len == text@.len(),
            i <= len,
            fixed@ + unescape(text@.skip(i as int)) == unescape(text@),
        decreases len - i,
    {
        let ghost rest = text@.skip(i as int);
        let c = text.get_char(i);
        if c == '\\' && i + 1 < len {
            let nc = text.get_char(i + 1);
            assert(rest[0] == c && rest[1] == nc);
            if nc == 'n' {
                proof { reveal_strlit("\n"); }
                fixed.append("\n");
                i = i + 2;
            } else if nc == 'r' {
                proof { reveal_strlit("\r"); }
                fixed.append("\r");
                i = i + 2;
            } else if nc == 't' {
                proof { reveal_strlit("\t"); }
                fixed.append("\t");
                i = i + 2;
            } else if nc == '0' {
                proof { reveal_strlit("\0"); }
                fixed.append("\0");
                i = i + 2;
            } else if nc == '\\' {
                proof { reveal_strlit("\\"); }
                fixed.append("\\");
                i = i + 2;
            } else {
                let piece = text.substring_char(i + 1, i + 2);
                fixed.append(piece);
                i = i + 1;
            }
            proof {
                assert(rest.skip(2) =~= text@.skip(i as int) || rest.skip(1) =~= text@.skip(i as int));
            }
        } else {
            let piece = text.substring_char(i, i + 1);
            fixed.append(piece);
            i = i + 1;
            assert(rest.skip(1) =~= text@.skip(i as int));
        }
        assert(fixed@ + unescape(text@.skip(i as int)) =~= unescape(text@));
    }
    fixed
}

/// Calls `isize::to_string`, which writes the integer in decimal, with a minus sign when it
/// is negative.
#[verifier::external_body]
fn isize_to_text(v: isize) -> (text: String)
    ensures
        text@ == decimal_text(v as int),
{
    v.to_string()
}

/// Calls `usize::to_string`, which writes the number in decimal.
#[verifier::external_body]
pub(crate) fn usize_to_text(v: usize) -> (text: String)
    ensures
        text@ == decimal_text(v as int),
{
    v.to_string()
}

/// Calls `str::repeat`, which writes the text `n` times in a row; it panics only when the
/// result's size overflows, which the bound on the character count rules out.
#[verifier::external_body]
pub(crate) fn repeat_str(text: &str, n: usize) -> (repeated: String)
    requires
        text@.len() == 0 || text@.len() * n <= repeat_limit(),
    ensures
        repeated@ == repeat_text(text@, n as nat),
{
    text.repeat(n)
}

impl MyValueType {
    pub fn try_to_isize(self) -> (n: isize)
        ensures
            n == as_isize(self@),
    {
        if let MyValueType::Isize { value } = self {
            value
        } else {
            0
        }
    }

    #[allow(non_snake_case)]
    pub fn try_to_String(self) -> (s: String)
        ensures
            s@ == as_text(self@),
    {
        if let MyValueType::String { value } = self {
            value
        } else {
            String::new()
        }
    }

    /// Reads `str_value` as a value of the same data type as `self`: an integer that does
    /// not parse reads as 0, and a text has its escape sequences replaced.
    pub fn parse_value(&self, str_value: &str) -> (parsed: MyValueType)
        ensures
            parsed@ == parsed_value(self@, str_value@),
    {
        match self {
            MyValueType::Isize { value: _ } => {
                let parsed = parse_isize(str_value);
                let n = match parsed {
                    Some(n) => n,
                    None => 0,
                };
                MyValueType::Isize { value: n }
            },
            MyValueType::String { value: _ } => MyValueType::String {
                value: fix_escape_chars(str_value),
            },
        }
    }

    pub fn get_data_type(&self) -> (t: MyDataType)
        ensures
            t == type_of(self@),
    {
        match self {
            MyValueType::Isize { value: _ } => MyDataType::Isize,
            MyValueType::String { value: _ } => MyDataType::String,
        }
    }

    /// The text shown for the value: the integer in decimal, or the text itself.
    pub fn get_print_text(&self) -> (text: String)
        ensures
            text@ == print_text(self@),
    {
        match self {
            MyValueType::Isize { value } => isize_to_text(*value),
            MyValueType::String { value } => value.clone(),
        }
    }
}

/// A text read as a value of the same data type as `v`: an integer that does not parse reads
/// as 0, and a text has its escape sequences replaced.
pub open spec fn parsed_value(v: ValueView, s: Seq<char>) -> ValueView {
    match v {
        ValueView::Isize(_) => ValueView::Isize(
            match isize_from_text(s) {
                Some(n) => n,
                None => 0,
            },
        ),
        ValueView::Text(_) => ValueView::Text(unescape(s)),
    }
}

/// Reading a text as a value keeps the data type.
pub proof fn law_parse_keeps_type(v: ValueView, s: Seq<char>)
    ensures
        type_of(parsed_value(v, s)) == type_of(v),
{
}

/// The value a socket of data type `t` holds when made: 0, or the empty text.
pub open spec fn default_value(t: MyDataType) -> ValueView {
    match t {
        MyDataType::Isize => ValueView::Isize(0),
        MyDataType::String => ValueView::Text(Seq::empty()),
    }
}

/// Reading the empty text gives the default value of the data type: this is what `set_val`
/// without a value sets.
pub proof fn law_empty_text_reads_as_default(v: ValueView)
    ensures
        parsed_value(v, Seq::empty()) == default_value(type_of(v)),
{
    assert(unescape(Seq::<char>::empty()) == Seq::<char>::empty());
}

proof fn lemma_digit_char(d: int)
    requires
        0 <= d < 10,
    ensures
        is_digit(digit_char(d)),
        digit_value(digit_char(d)) == d,
        digit_char(d) != '-',
        digit_char(d) != '+',
{
    let s = seq!['0', '1', '2', '3', '4', '5', '6', '7', '8', '9'];
    assert(digit_char(d) == s[d]);
    if d == 0 {
    } else if d == 1 {
    } else if d == 2 {
    } else if d == 3 {
    } else if d == 4 {
    } else if d == 5 {
    } else if d == 6 {
    } else if d == 7 {
    } else if d == 8 {
    } else {
    }
}

/// The decimal digits of a number are digits, start with a digit, and read back as the number.
proof fn lemma_nat_digits(n: nat)
    ensures
        all_digits(nat_digits(n)),
        digits_value(nat_digits(n)) == n,
        nat_digits(n)[0] != '-',
        nat_digits(n)[0] != '+',
    decreases n,
{
    if n < 10 {
        lemma_digit_char(n as int);
        let s = seq![digit_char(n as int)];
        assert(s.drop_last() =~= Seq::<char>::empty());
        assert(digits_value(s) == digits_value(s.drop_last()) * 10 + digit_value(s.last()));
    } else {
        lemma_nat_digits(n / 10);
        lemma_digit_char((n % 10) as int);
        let d = nat_digits(n / 10);
        let s = d.push(digit_char((n % 10) as int));
        assert(s.drop_last() =~= d);
        assert(s[0] == d[0]);
        assert(digits_value(s) == digits_value(d) * 10 + digit_value(s.last()));
        assert((n / 10) * 10 + n % 10 == n) by (nonlinear_arith);
        assert forall|i: int| 0 <= i < s.len() implies is_digit(#[trigger] s[i]) by {
            if i < d.len() {
                assert(s[i] == d[i]);
            }
        }
    }
}

/// Printing an integer and reading the text back as an integer gives the integer again.
pub proof fn law_print_then_parse(v: isize, w: isize)
    ensures
        parsed_value(ValueView::Isize(w), print_text(ValueView::Isize(v))) == ValueView::Isize(v),
{
    let t = decimal_text(v as int);
    if v < 0 {
        lemma_nat_digits((-v) as nat);
        assert(t.skip(1) =~= nat_digits((-v) as nat));
        assert(t[0] == '-');
    } else {
        lemma_nat_digits(v as nat);
    }
}

/// The text shown for a value.
pub open spec fn print_text(v: ValueView) -> Seq<char> {
    match v {
        ValueView::Isize(n) => decimal_text(n as int),
        ValueView::Text(s) => s,
    }
}

} // verus!
