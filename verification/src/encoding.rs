//! Wire form of the value codec: escaping, field splitting and decimal
//! numbers, each with a proof that decoding inverts encoding.
//!
//! A serialized column is a record: fields separated by `;`, each field a
//! one-character key, `=`, and an escaped value. Lists are elements joined
//! by `|`. Escaping removes every structural character from a value, so the
//! splits above never cut a value apart.

use vstd::prelude::*;

verus! {

use vstd::string::StrSliceExecFns;

/// Characters with a structural meaning in the wire form.
pub open spec fn is_special(c: char) -> bool {
    c == ';' || c == '=' || c == '|' || c == '\\'
}

/// Separators, the specials that splitting looks for.
pub open spec fn is_sep_char(c: char) -> bool {
    c == ';' || c == '=' || c == '|'
}

/// The code standing for a special character after a backslash.
pub open spec fn esc_code(c: char) -> char {
    if c == ';' {
        's'
    } else if c == '=' {
        'e'
    } else if c == '|' {
        'p'
    } else {
        'b'
    }
}

/// The special character a code stands for, if any.
pub open spec fn code_esc(c: char) -> Option<char> {
    if c == 's' {
        Some(';')
    } else if c == 'e' {
        Some('=')
    } else if c == 'p' {
        Some('|')
    } else if c == 'b' {
        Some('\\')
    } else {
        None
    }
}

/// Escaped form of a value: every special character becomes a backslash
/// pair, so the result holds no separator at all.
pub open spec fn escape(s: Seq<char>) -> Seq<char>
    decreases s.len(),
{
    if s.len() == 0 {
        Seq::empty()
    } else if is_special(s[0]) {
        seq!['\\', esc_code(s[0])] + escape(s.skip(1))
    } else {
        seq![s[0]] + escape(s.skip(1))
    }
}

/// Inverse of `escape`: `None` on a stray separator, on a backslash before
/// anything but a code, and on a trailing backslash.
pub open spec fn unescape(s: Seq<char>) -> Option<Seq<char>>
    decreases s.len(),
{
    if s.len() == 0 {
        Some(Seq::empty())
    } else if s[0] == '\\' {
        if s.len() >= 2 {
            match code_esc(s[1]) {
                Some(c) => match unescape(s.skip(2)) {
                    Some(r) => Some(seq![c] + r),
                    None => None,
                },
                None => None,
            }
        } else {
            None
        }
    } else if is_special(s[0]) {
        None
    } else {
        match unescape(s.skip(1)) {
            Some(r) => Some(seq![s[0]] + r),
            None => None,
        }
    }
}

/// An escaped value holds no separator, so splitting never cuts it apart.
pub proof fn lemma_escape_no_sep(s: Seq<char>)
    ensures
        forall|i: int| 0 <= i < escape(s).len() ==> !is_sep_char(#[trigger] escape(s)[i]),
        !escape(s).contains(';'),
        !escape(s).contains('|'),
    decreases s.len(),
{
    if s.len() > 0 {
        lemma_escape_no_sep(s.skip(1));
    }
    if escape(s).contains(';') {
        let i = choose|i: int| 0 <= i < escape(s).len() && escape(s)[i] == ';';
        assert(is_sep_char(escape(s)[i]));
    }
    if escape(s).contains('|') {
        let i = choose|i: int| 0 <= i < escape(s).len() && escape(s)[i] == '|';
        assert(is_sep_char(escape(s)[i]));
    }
}

/// Unescaping inverts escaping on every value.
pub proof fn lemma_unescape_escape(s: Seq<char>)
    ensures
        unescape(escape(s)) == Some(s),
    decreases s.len(),
{
    if s.len() > 0 {
        lemma_unescape_escape(s.skip(1));
        let e = escape(s);
        if is_special(s[0]) {
            assert(e == seq!['\\', esc_code(s[0])] + escape(s.skip(1)));
            assert(e[0] == '\\' && e[1] == esc_code(s[0]));
            assert(code_esc(esc_code(s[0])) == Some(s[0]));
            assert(e.skip(2) =~= escape(s.skip(1)));
            assert(seq![s[0]] + s.skip(1) =~= s);
        } else {
            assert(e == seq![s[0]] + escape(s.skip(1)));
            assert(e[0] == s[0]);
            assert(e.skip(1) =~= escape(s.skip(1)));
            assert(seq![s[0]] + s.skip(1) =~= s);
        }
    }
}

/// Escaping distributes over concatenation.
pub proof fn lemma_escape_app(a: Seq<char>, b: Seq<char>)
    ensures
        escape(a + b) == escape(a) + escape(b),
    decreases a.len(),
{
    if a.len() == 0 {
        assert(a + b =~= b);
        assert(escape(a) + escape(b) =~= escape(b));
    } else {
        lemma_escape_app(a.skip(1), b);
        assert((a + b).skip(1) =~= a.skip(1) + b);
        assert((a + b)[0] == a[0]);
        if is_special(a[0]) {
            assert(seq!['\\', esc_code(a[0])] + (escape(a.skip(1)) + escape(b)) =~= (seq![
                '\\',
                esc_code(a[0]),
            ] + escape(a.skip(1))) + escape(b));
        } else {
            assert(seq![a[0]] + (escape(a.skip(1)) + escape(b)) =~= (seq![a[0]] + escape(a.skip(1)))
                + escape(b));
        }
    }
}

/// Escaping never shrinks a value; in particular it keeps it nonempty.
pub proof fn lemma_escape_len(s: Seq<char>)
    ensures
        escape(s).len() >= s.len(),
    decreases s.len(),
{
    if s.len() > 0 {
        lemma_escape_len(s.skip(1));
    }
}

/// Index of the first occurrence of `sep`, if any.
pub open spec fn find_ch(s: Seq<char>, sep: char) -> Option<int>
    decreases s.len(),
{
    if s.len() == 0 {
        None
    } else if s[0] == sep {
        Some(0)
    } else {
        match find_ch(s.skip(1), sep) {
            Some(i) => Some(i + 1),
            None => None,
        }
    }
}

/// What `find_ch` returns: the first index holding `sep`, or a promise that
/// none does.
pub proof fn lemma_find_ch(s: Seq<char>, sep: char)
    ensures
        match find_ch(s, sep) {
            Some(i) => 0 <= i < s.len() && s[i] == sep && (forall|j: int|
                0 <= j < i ==> s[j] != sep),
            None => !s.contains(sep),
        },
    decreases s.len(),
{
    if s.len() > 0 && s[0] != sep {
        lemma_find_ch(s.skip(1), sep);
        assert(forall|j: int| 0 <= j < s.skip(1).len() ==> s.skip(1)[j] == s[j + 1]);
        match find_ch(s.skip(1), sep) {
            Some(i) => {
                assert(forall|j: int| 1 <= j < i + 1 ==> s[j] == s.skip(1)[j - 1]);
            },
            None => {
                if s.contains(sep) {
                    let i = choose|i: int| 0 <= i < s.len() && s[i] == sep;
                    assert(s.skip(1)[i - 1] == sep);
                    assert(s.skip(1).contains(sep));
                }
            },
        }
    }
}

/// The pieces of `s` between occurrences of `sep`; always at least one.
pub open spec fn split_on(s: Seq<char>, sep: char) -> Seq<Seq<char>>
    decreases s.len(),
{
    match find_ch(s, sep) {
        Some(i) => if 0 <= i < s.len() {
            seq![s.take(i)] + split_on(s.skip(i + 1), sep)
        } else {
            seq![s]
        },
        None => seq![s],
    }
}

/// The pieces joined back with `sep` between them.
pub open spec fn join_with(parts: Seq<Seq<char>>, sep: char) -> Seq<char>
    decreases parts.len(),
{
    if parts.len() == 0 {
        Seq::empty()
    } else if parts.len() == 1 {
        parts[0]
    } else {
        parts[0] + seq![sep] + join_with(parts.skip(1), sep)
    }
}

/// A piece without `sep` splits to itself alone.
pub proof fn lemma_split_no_sep(s: Seq<char>, sep: char)
    requires
        !s.contains(sep),
    ensures
        split_on(s, sep) == seq![s],
{
    lemma_find_ch(s, sep);
    match find_ch(s, sep) {
        Some(i) => {
            assert(s.contains(sep));
        },
        None => {},
    }
}

/// Splitting takes one `sep`-free piece off the front.
pub proof fn lemma_split_prefix(a: Seq<char>, b: Seq<char>, sep: char)
    requires
        !a.contains(sep),
    ensures
        split_on(a + seq![sep] + b, sep) == seq![a] + split_on(b, sep),
{
    let s = a + seq![sep] + b;
    lemma_find_ch(s, sep);
    assert(s[a.len() as int] == sep);
    match find_ch(s, sep) {
        Some(i) => {
            if i < a.len() {
                assert(s[i] == a[i]);
                assert(a.contains(sep));
            }
            if i > a.len() {
                assert(s[a.len() as int] != sep);
            }
            assert(i == a.len());
            assert(s.take(i) =~= a);
            assert(s.skip(i + 1) =~= b);
        },
        None => {
            assert(s.contains(sep));
        },
    }
}

/// Splitting inverts joining when no piece holds the separator.
pub proof fn lemma_split_join(parts: Seq<Seq<char>>, sep: char)
    requires
        parts.len() >= 1,
        forall|i: int| 0 <= i < parts.len() ==> !(#[trigger] parts[i]).contains(sep),
    ensures
        split_on(join_with(parts, sep), sep) == parts,
    decreases parts.len(),
{
    if parts.len() == 1 {
        lemma_split_no_sep(parts[0], sep);
        assert(seq![parts[0]] =~= parts);
    } else {
        lemma_split_join(parts.skip(1), sep);
        lemma_split_prefix(parts[0], join_with(parts.skip(1), sep), sep);
        assert(join_with(parts, sep) == parts[0] + seq![sep] + join_with(parts.skip(1), sep));
        assert(seq![parts[0]] + parts.skip(1) =~= parts);
    }
}

/// Joining after an added piece extends the joined text on the right.
pub proof fn lemma_join_push(parts: Seq<Seq<char>>, x: Seq<char>, sep: char)
    ensures
        join_with(parts.push(x), sep) == if parts.len() == 0 {
            x
        } else {
            join_with(parts, sep) + seq![sep] + x
        },
    decreases parts.len(),
{
    if parts.len() == 0 {
        assert(parts.push(x) =~= seq![x]);
    } else if parts.len() == 1 {
        assert(parts.push(x).skip(1) =~= seq![x]);
        assert(parts.push(x)[0] == parts[0]);
        assert(join_with(seq![x], sep) == x);
        assert(join_with(parts.push(x), sep) =~= join_with(parts, sep) + seq![sep] + x);
    } else {
        lemma_join_push(parts.skip(1), x, sep);
        assert(parts.push(x).skip(1) =~= parts.skip(1).push(x));
        assert(parts.push(x)[0] == parts[0]);
        assert(parts[0] + seq![sep] + (join_with(parts.skip(1), sep) + seq![sep] + x) =~= (parts[0]
            + seq![sep] + join_with(parts.skip(1), sep)) + seq![sep] + x);
        assert(join_with(parts.push(x), sep) =~= join_with(parts, sep) + seq![sep] + x);
    }
}

/// The digit a decimal value under ten is written as.
pub open spec fn digit_char(d: nat) -> char {
    if d == 0 {
        '0'
    } else if d == 1 {
        '1'
    } else if d == 2 {
        '2'
    } else if d == 3 {
        '3'
    } else if d == 4 {
        '4'
    } else if d == 5 {
        '5'
    } else if d == 6 {
        '6'
    } else if d == 7 {
        '7'
    } else if d == 8 {
        '8'
    } else {
        '9'
    }
}

/// The value a decimal digit stands for, if the character is one.
pub open spec fn char_digit(c: char) -> Option<nat> {
    if c == '0' {
        Some(0)
    } else if c == '1' {
        Some(1)
    } else if c == '2' {
        Some(2)
    } else if c == '3' {
        Some(3)
    } else if c == '4' {
        Some(4)
    } else if c == '5' {
        Some(5)
    } else if c == '6' {
        Some(6)
    } else if c == '7' {
        Some(7)
    } else if c == '8' {
        Some(8)
    } else if c == '9' {
        Some(9)
    } else {
        None
    }
}

/// Decimal writing of a number, most significant digit first.
pub open spec fn dec_rep(n: nat) -> Seq<char>
    decreases n,
{
    if n < 10 {
        seq![digit_char(n)]
    } else {
        dec_rep(n / 10) + seq![digit_char(n % 10)]
    }
}

/// Value of a digit string; meaningful only when every character is a digit.
pub open spec fn dec_val(s: Seq<char>) -> nat
    decreases s.len(),
{
    if s.len() == 0 {
        0
    } else {
        match char_digit(s.last()) {
            Some(d) => dec_val(s.drop_last()) * 10 + d,
            None => 0,
        }
    }
}

pub open spec fn all_digits(s: Seq<char>) -> bool {
    forall|i: int| 0 <= i < s.len() ==> char_digit(#[trigger] s[i]) is Some
}

/// The number a column text stands for: digits only, nonempty, in range.
pub open spec fn parse_u64(s: Seq<char>) -> Option<u64> {
    if s.len() >= 1 && all_digits(s) && dec_val(s) <= u64::MAX as nat {
        Some(dec_val(s) as u64)
    } else {
        None
    }
}

/// A written number is nonempty and all digits.
pub proof fn lemma_dec_rep_digits(n: nat)
    ensures
        dec_rep(n).len() >= 1,
        all_digits(dec_rep(n)),
    decreases n,
{
    if n >= 10 {
        lemma_dec_rep_digits(n / 10);
    }
}

/// Reading a written number gives the number back.
pub proof fn lemma_dec_val_rep(n: nat)
    ensures
        dec_val(dec_rep(n)) == n,
    decreases n,
{
    if n < 10 {
        assert(dec_rep(n) == seq![digit_char(n)]);
        assert(dec_rep(n).last() == digit_char(n));
        assert(char_digit(digit_char(n)) == Some(n));
        assert(dec_rep(n).drop_last() =~= Seq::<char>::empty());
        assert(dec_val(dec_rep(n)) == dec_val(Seq::<char>::empty()) * 10 + n);
    } else {
        lemma_dec_val_rep(n / 10);
        assert(dec_rep(n) == dec_rep(n / 10) + seq![digit_char(n % 10)]);
        assert((dec_rep(n / 10) + seq![digit_char(n % 10)]).drop_last() =~= dec_rep(n / 10));
        assert(dec_rep(n).last() == digit_char(n % 10));
        assert(n % 10 < 10);
        assert(char_digit(digit_char(n % 10)) == Some(n % 10));
        assert(dec_val(dec_rep(n)) == (n / 10) * 10 + n % 10);
        assert(n / 10 * 10 + n % 10 == n) by (nonlinear_arith);
    }
}

/// The number codec round trip, for every `u64`.
pub proof fn lemma_parse_dec_rep(n: u64)
    ensures
        parse_u64(dec_rep(n as nat)) == Some(n),
{
    lemma_dec_rep_digits(n as nat);
    lemma_dec_val_rep(n as nat);
}

/// A digit string's value only grows as it gets longer.
pub proof fn lemma_dec_val_prefix(s: Seq<char>, i: int)
    requires
        0 <= i <= s.len(),
        all_digits(s),
    ensures
        dec_val(s.take(i)) <= dec_val(s),
    decreases s.len() - i,
{
    if i < s.len() {
        lemma_dec_val_prefix(s, i + 1);
        assert(s.take(i + 1).drop_last() =~= s.take(i));
        assert(s.take(i + 1).last() == s[i]);
    } else {
        assert(s.take(i) =~= s);
    }
}

// ------------------------------------------------------------------
// Records: `key=value` fields joined by `;`.
// ------------------------------------------------------------------

/// One written field: the key, `=`, and the escaped value.
pub open spec fn field_rep(k: char, v: Seq<char>) -> Seq<char> {
    seq![k, '='] + escape(v)
}

/// A whole written record.
pub open spec fn record_rep(fields: Seq<(char, Seq<char>)>) -> Seq<char> {
    join_with(fields.map_values(|kv: (char, Seq<char>)| field_rep(kv.0, kv.1)), ';')
}

/// Reading one field: a key, `=` right after it, an unescapable value.
pub open spec fn parse_field(f: Seq<char>) -> Option<(char, Seq<char>)> {
    if f.len() >= 2 && !is_special(f[0]) && f[1] == '=' {
        match unescape(f.skip(2)) {
            Some(v) => Some((f[0], v)),
            None => None,
        }
    } else {
        None
    }
}

pub open spec fn parse_fields_list(parts: Seq<Seq<char>>) -> Option<Seq<(char, Seq<char>)>>
    decreases parts.len(),
{
    if parts.len() == 0 {
        Some(Seq::empty())
    } else {
        match parse_field(parts[0]) {
            Some(kv) => match parse_fields_list(parts.skip(1)) {
                Some(r) => Some(seq![kv] + r),
                None => None,
            },
            None => None,
        }
    }
}

/// Reading a whole record back into its fields.
pub open spec fn parse_record(s: Seq<char>) -> Option<Seq<(char, Seq<char>)>> {
    parse_fields_list(split_on(s, ';'))
}

/// Reading a written field gives the field back, and the written form is
/// safe to join with `;`.
pub proof fn lemma_field_round_trip(k: char, v: Seq<char>)
    requires
        !is_special(k),
    ensures
        parse_field(field_rep(k, v)) == Some((k, v)),
        !field_rep(k, v).contains(';'),
        field_rep(k, v).len() >= 2,
{
    let f = field_rep(k, v);
    lemma_escape_no_sep(v);
    lemma_unescape_escape(v);
    assert(f[0] == k && f[1] == '=');
    assert(f.skip(2) =~= escape(v));
    if f.contains(';') {
        let i = choose|i: int| 0 <= i < f.len() && f[i] == ';';
        if i >= 2 {
            assert(escape(v)[i - 2] == ';');
            assert(is_sep_char(escape(v)[i - 2]));
        }
    }
}

/// The record codec round trip: reading a written record gives every field
/// back, in order, whatever the values hold.
pub proof fn lemma_record_round_trip(fields: Seq<(char, Seq<char>)>)
    requires
        fields.len() >= 1,
        forall|i: int| 0 <= i < fields.len() ==> !is_special((#[trigger] fields[i]).0),
    ensures
        parse_record(record_rep(fields)) == Some(fields),
    decreases fields.len(),
{
    let parts = fields.map_values(|kv: (char, Seq<char>)| field_rep(kv.0, kv.1));
    assert forall|i: int| 0 <= i < parts.len() implies !(#[trigger] parts[i]).contains(';') by {
        lemma_field_round_trip(fields[i].0, fields[i].1);
    }
    lemma_split_join(parts, ';');
    lemma_parse_fields_map(fields);
}

/// Field-list reading inverts field-list writing, field by field.
pub proof fn lemma_parse_fields_map(fields: Seq<(char, Seq<char>)>)
    requires
        forall|i: int| 0 <= i < fields.len() ==> !is_special((#[trigger] fields[i]).0),
    ensures
        parse_fields_list(fields.map_values(|kv: (char, Seq<char>)| field_rep(kv.0, kv.1)))
            == Some(fields),
    decreases fields.len(),
{
    let parts = fields.map_values(|kv: (char, Seq<char>)| field_rep(kv.0, kv.1));
    if fields.len() == 0 {
        assert(Seq::<(char, Seq<char>)>::empty() =~= fields);
    } else {
        lemma_field_round_trip(fields[0].0, fields[0].1);
        lemma_parse_fields_map(fields.skip(1));
        assert(parts.skip(1) =~= fields.skip(1).map_values(
            |kv: (char, Seq<char>)| field_rep(kv.0, kv.1),
        ));
        assert(seq![fields[0]] + fields.skip(1) =~= fields);
    }
}

// ------------------------------------------------------------------
// Executable forms, each tied to the reading and writing above.
// ------------------------------------------------------------------

/// The views of a list of character buffers.
pub open spec fn views_of(vs: Seq<Vec<char>>) -> Seq<Seq<char>> {
    vs.map_values(|v: Vec<char>| v@)
}

/// The views of a list of key-value fields.
pub open spec fn field_views(fs: Seq<(char, Vec<char>)>) -> Seq<(char, Seq<char>)> {
    fs.map_values(|kv: (char, Vec<char>)| (kv.0, kv.1@))
}

/// The characters of a text, in order.
pub fn str_to_chars(s: &str) -> (r: Vec<char>)
    ensures
        r@ == s@,
{
    let n = s.unicode_len();
    let mut r: Vec<char> = Vec::new();
    let mut i: usize = 0;
    while i < n
        invariant
            i <= n,
            n == s@.len(),
            r@ == s@.take(i as int),
        decreases n - i,
    {
        let c = s.get_char(i);
        r.push(c);
        proof {
            assert(s@.take(i as int).push(s@[i as int]) =~= s@.take(i as int + 1));
        }
        i = i + 1;
    }
    proof {
        assert(s@.take(n as int) =~= s@);
    }
    r
}

/// Relies on `core::iter::Iterator::collect` building a `String` out of
/// exactly the characters it is handed, in order.
#[verifier::external_body]
pub fn chars_to_string(v: &Vec<char>) -> (r: String)
    ensures
        r@ == v@,
{
    v.iter().collect()
}

fn is_special_char(c: char) -> (r: bool)
    ensures
        r == is_special(c),
{
    c == ';' || c == '=' || c == '|' || c == '\\'
}

/// The elements of `v` from position `n` on.
pub fn vec_skip(v: &Vec<char>, n: usize) -> (r: Vec<char>)
    requires
        n <= v.len(),
    ensures
        r@ == v@.skip(n as int),
{
    let mut r: Vec<char> = Vec::new();
    let mut i: usize = n;
    while i < v.len()
        invariant
            n <= i <= v.len(),
            r@ == v@.subrange(n as int, i as int),
        decreases v.len() - i,
    {
        r.push(v[i]);
        proof {
            assert(v@.subrange(n as int, i as int).push(v@[i as int]) =~= v@.subrange(
                n as int,
                i as int + 1,
            ));
        }
        i = i + 1;
    }
    proof {
        assert(v@.subrange(n as int, v@.len() as int) =~= v@.skip(n as int));
    }
    r
}

/// Appends the escaped form of `v`.
pub fn push_escaped(out: &mut Vec<char>, v: &Vec<char>)
    ensures
        final(out)@ == old(out)@ + escape(v@),
{
    let mut i: usize = 0;
    proof {
        assert(old(out)@ + escape(v@.take(0)) =~= old(out)@);
    }
    while i < v.len()
        invariant
            i <= v.len(),
            out@ == old(out)@ + escape(v@.take(i as int)),
        decreases v.len() - i,
    {
        let c = v[i];
        proof {
            let cs = seq![v@[i as int]];
            assert(cs.skip(1) =~= Seq::<char>::empty());
            assert(escape(Seq::<char>::empty()) =~= Seq::<char>::empty());
            assert(escape(cs) =~= (if is_special(v@[i as int]) {
                seq!['\\', esc_code(v@[i as int])]
            } else {
                seq![v@[i as int]]
            }));
            lemma_escape_app(v@.take(i as int), cs);
            assert(v@.take(i as int) + cs =~= v@.take(i as int + 1));
        }
        if c == ';' {
            out.push('\\');
            out.push('s');
        } else if c == '=' {
            out.push('\\');
            out.push('e');
        } else if c == '|' {
            out.push('\\');
            out.push('p');
        } else if c == '\\' {
            out.push('\\');
            out.push('b');
        } else {
            out.push(c);
        }
        proof {
            assert(out@ =~= old(out)@ + escape(v@.take(i as int + 1)));
        }
        i = i + 1;
    }
    proof {
        assert(v@.take(v@.len() as int) =~= v@);
    }
}

/// Undoes `push_escaped`; `None` exactly where the text is not an escaped
/// form.
pub fn unescape_chars(s: &Vec<char>) -> (r: Option<Vec<char>>)
    ensures
        match r {
            Some(v) => unescape(s@) == Some(v@),
            None => unescape(s@) is None,
        },
{
    let mut out: Vec<char> = Vec::new();
    let mut i: usize = 0;
    proof {
        assert(s@.skip(0) =~= s@);
    }
    while i < s.len()
        invariant
            i <= s.len(),
            unescape(s@) == (match unescape(s@.skip(i as int)) {
                Some(rest) => Some(out@ + rest),
                None => None::<Seq<char>>,
            }),
        decreases s.len() - i,
    {
        let c = s[i];
        proof {
            assert(s@.skip(i as int)[0] == s@[i as int]);
        }
        if c == '\\' {
            if i + 1 < s.len() {
                let d = s[i + 1];
                let u: Option<char> = if d == 's' {
                    Some(';')
                } else if d == 'e' {
                    Some('=')
                } else if d == 'p' {
                    Some('|')
                } else if d == 'b' {
                    Some('\\')
                } else {
                    None
                };
                proof {
                    assert(s@.skip(i as int)[1] == s@[i + 1 as int]);
                }
                match u {
                    Some(x) => {
                        proof {
                            assert(code_esc(s@[i + 1 as int]) == Some(x));
                            assert(s@.skip(i as int).skip(2) =~= s@.skip(i as int + 2));
                            if unescape(s@.skip(i as int + 2)) is Some {
                                let rest = unescape(s@.skip(i as int + 2))->0;
                                assert(out@ + (seq![x] + rest) =~= out@.push(x) + rest);
                            }
                        }
                        out.push(x);
                        i = i + 2;
                    },
                    None => {
                        proof {
                            assert(unescape(s@.skip(i as int)) is None);
                        }
                        return None;
                    },
                }
            } else {
                proof {
                    assert(s@.skip(i as int).len() < 2);
                    assert(unescape(s@.skip(i as int)) is None);
                }
                return None;
            }
        } else if c == ';' || c == '=' || c == '|' {
            proof {
                assert(unescape(s@.skip(i as int)) is None);
            }
            return None;
        } else {
            proof {
                assert(s@.skip(i as int).skip(1) =~= s@.skip(i as int + 1));
                if unescape(s@.skip(i as int + 1)) is Some {
                    let rest = unescape(s@.skip(i as int + 1))->0;
                    assert(out@ + (seq![s@[i as int]] + rest) =~= out@.push(s@[i as int]) + rest);
                }
            }
            out.push(c);
            i = i + 1;
        }
    }
    proof {
        assert(s@.skip(s@.len() as int) =~= Seq::<char>::empty());
    }
    Some(out)
}

/// Splits on a separator; the pieces, in order.
pub fn split_chars(s: &Vec<char>, sep: char) -> (r: Vec<Vec<char>>)
    ensures
        views_of(r@) == split_on(s@, sep),
{
    let mut parts: Vec<Vec<char>> = Vec::new();
    let mut cur: Vec<char> = Vec::new();
    let mut i: usize = 0;
    proof {
        assert(cur@ + s@.skip(0) =~= s@);
        assert(views_of(parts@) + split_on(s@, sep) =~= split_on(s@, sep));
    }
    while i < s.len()
        invariant
            i <= s.len(),
            !cur@.contains(sep),
            split_on(s@, sep) == views_of(parts@) + split_on(cur@ + s@.skip(i as int), sep),
        decreases s.len() - i,
    {
        let c = s[i];
        proof {
            assert(s@.skip(i as int)[0] == s@[i as int]);
        }
        if c == sep {
            proof {
                assert(cur@ + s@.skip(i as int) =~= cur@ + seq![sep] + s@.skip(i as int + 1));
                lemma_split_prefix(cur@, s@.skip(i as int + 1), sep);
            }
            let ghost old_parts = parts@;
            let ghost cv = cur@;
            parts.push(cur);
            proof {
                assert(views_of(parts@) =~= views_of(old_parts) + seq![cv]);
                assert(views_of(old_parts) + (seq![cv] + split_on(s@.skip(i as int + 1), sep))
                    =~= views_of(parts@) + split_on(s@.skip(i as int + 1), sep));
            }
            cur = Vec::new();
            i = i + 1;
            proof {
                assert(cur@ + s@.skip(i as int) =~= s@.skip(i as int));
            }
        } else {
            proof {
                assert(cur@ + s@.skip(i as int) =~= (cur@ + seq![c]) + s@.skip(i as int + 1));
                assert(cur@.push(c) =~= cur@ + seq![c]);
                if (cur@.push(c)).contains(sep) {
                    let j = choose|j: int|
                        0 <= j < cur@.push(c).len() && cur@.push(c)[j] == sep;
                    assert(j < cur@.len());
                    assert(cur@[j] == sep);
                }
            }
            cur.push(c);
            i = i + 1;
        }
    }
    proof {
        assert(s@.skip(s@.len() as int) =~= Seq::<char>::empty());
        assert(cur@ + Seq::<char>::empty() =~= cur@);
        lemma_split_no_sep(cur@, sep);
    }
    let ghost old_parts = parts@;
    let ghost cv = cur@;
    parts.push(cur);
    proof {
        assert(views_of(parts@) =~= views_of(old_parts) + seq![cv]);
    }
    parts
}

/// Appends one written field.
pub fn push_field(out: &mut Vec<char>, k: char, v: &Vec<char>)
    ensures
        final(out)@ == old(out)@ + field_rep(k, v@),
{
    out.push(k);
    out.push('=');
    push_escaped(out, v);
    proof {
        assert(out@ =~= old(out)@ + field_rep(k, v@));
    }
}

/// Writes a whole record out of its fields.
pub fn record_from_fields(fields: &Vec<(char, Vec<char>)>) -> (r: Vec<char>)
    ensures
        r@ == record_rep(field_views(fields@)),
{
    let ghost frep = |kv: (char, Seq<char>)| field_rep(kv.0, kv.1);
    let mut out: Vec<char> = Vec::new();
    let mut i: usize = 0;
    proof {
        assert(field_views(fields@.take(0)).map_values(frep) =~= Seq::<Seq<char>>::empty());
    }
    while i < fields.len()
        invariant
            i <= fields.len(),
            out@ == join_with(field_views(fields@.take(i as int)).map_values(frep), ';'),
            frep == (|kv: (char, Seq<char>)| field_rep(kv.0, kv.1)),
        decreases fields.len() - i,
    {
        let ghost parts = field_views(fields@.take(i as int)).map_values(frep);
        let k = fields[i].0;
        proof {
            assert(field_views(fields@.take(i as int + 1)).map_values(frep) =~= parts.push(
                field_rep(k, fields@[i as int].1@),
            ));
            lemma_join_push(parts, field_rep(k, fields@[i as int].1@), ';');
            assert(parts.len() == i);
        }
        if i > 0 {
            out.push(';');
        }
        let v = &fields[i].1;
        push_field(&mut out, k, v);
        proof {
            if i > 0 {
                assert(out@ =~= join_with(parts, ';') + seq![';'] + field_rep(
                    k,
                    fields@[i as int].1@,
                ));
            }
        }
        i = i + 1;
    }
    proof {
        assert(fields@.take(fields@.len() as int) =~= fields@);
    }
    out
}

/// Reads a record back into its fields; `None` exactly where the text is
/// not a record.
pub fn parse_record_chars(s: &Vec<char>) -> (r: Option<Vec<(char, Vec<char>)>>)
    ensures
        match r {
            Some(fs) => parse_record(s@) == Some(field_views(fs@)),
            None => parse_record(s@) is None,
        },
{
    let parts = split_chars(s, ';');
    let ghost pviews = views_of(parts@);
    let mut out: Vec<(char, Vec<char>)> = Vec::new();
    let mut i: usize = 0;
    proof {
        assert(pviews.skip(0) =~= pviews);
        assert(field_views(out@) + parse_fields_list(pviews)->0 =~= parse_fields_list(pviews)->0);
    }
    while i < parts.len()
        invariant
            i <= parts.len(),
            pviews == views_of(parts@),
            parts@.len() == pviews.len(),
            parse_record(s@) == parse_fields_list(pviews),
            parse_fields_list(pviews) == (match parse_fields_list(pviews.skip(i as int)) {
                Some(rest) => Some(field_views(out@) + rest),
                None => None::<Seq<(char, Seq<char>)>>,
            }),
        decreases parts.len() - i,
    {
        let part = &parts[i];
        proof {
            assert(pviews.skip(i as int)[0] == pviews[i as int]);
            assert(pviews[i as int] == part@);
            assert(pviews.skip(i as int).skip(1) =~= pviews.skip(i as int + 1));
        }
        if part.len() < 2 {
            proof {
                assert(parse_field(part@) is None);
            }
            return None;
        }
        let k = part[0];
        let eq = part[1];
        if is_special_char(k) || eq != '=' {
            proof {
                assert(parse_field(part@) is None);
            }
            return None;
        }
        let tail = vec_skip(part, 2);
        match unescape_chars(&tail) {
            Some(v) => {
                proof {
                    assert(part@.skip(2) =~= tail@);
                    assert(parse_field(part@) == Some((k, v@)));
                    if parse_fields_list(pviews.skip(i as int + 1)) is Some {
                        let rest = parse_fields_list(pviews.skip(i as int + 1))->0;
                        assert(field_views(out@.push((k, v))) =~= field_views(out@).push((k, v@)));
                        assert(field_views(out@) + (seq![(k, v@)] + rest) =~= field_views(
                            out@,
                        ).push((k, v@)) + rest);
                    } else {
                        assert(field_views(out@.push((k, v))) =~= field_views(out@).push((k, v@)));
                    }
                }
                out.push((k, v));
                i = i + 1;
            },
            None => {
                proof {
                    assert(parse_field(part@) is None);
                }
                return None;
            },
        }
    }
    proof {
        assert(pviews.skip(pviews.len() as int) =~= Seq::<Seq<char>>::empty());
        if parse_fields_list(pviews) is Some {
            let whole = parse_fields_list(pviews)->0;
            assert(field_views(out@) + Seq::<(char, Seq<char>)>::empty() =~= field_views(out@));
        }
    }
    Some(out)
}

fn digit_char_exec(d: u64) -> (c: char)
    requires
        d < 10,
    ensures
        c == digit_char(d as nat),
{
    if d == 0 {
        '0'
    } else if d == 1 {
        '1'
    } else if d == 2 {
        '2'
    } else if d == 3 {
        '3'
    } else if d == 4 {
        '4'
    } else if d == 5 {
        '5'
    } else if d == 6 {
        '6'
    } else if d == 7 {
        '7'
    } else if d == 8 {
        '8'
    } else {
        '9'
    }
}

fn char_digit_exec(c: char) -> (r: Option<u64>)
    ensures
        match r {
            Some(d) => char_digit(c) == Some(d as nat) && d < 10,
            None => char_digit(c) is None,
        },
{
    if c == '0' {
        Some(0)
    } else if c == '1' {
        Some(1)
    } else if c == '2' {
        Some(2)
    } else if c == '3' {
        Some(3)
    } else if c == '4' {
        Some(4)
    } else if c == '5' {
        Some(5)
    } else if c == '6' {
        Some(6)
    } else if c == '7' {
        Some(7)
    } else if c == '8' {
        Some(8)
    } else if c == '9' {
        Some(9)
    } else {
        None
    }
}

/// Writes a number in decimal.
pub fn u64_to_chars(n: u64) -> (r: Vec<char>)
    ensures
        r@ == dec_rep(n as nat),
    decreases n,
{
    let d: u64 = n % 10;
    let c = digit_char_exec(d);
    if n < 10 {
        let mut v: Vec<char> = Vec::new();
        v.push(c);
        proof {
            assert(Seq::<char>::empty().push(digit_char(n as nat)) =~= seq![digit_char(n as nat)]);
        }
        v
    } else {
        let mut v = u64_to_chars(n / 10);
        v.push(c);
        proof {
            assert((n as nat) / 10 == (n / 10) as nat);
            assert((n as nat) % 10 == d as nat);
            assert(dec_rep((n / 10) as nat).push(digit_char(d as nat)) =~= dec_rep((n / 10) as nat)
                + seq![digit_char(d as nat)]);
        }
        v
    }
}

/// Reads a decimal number; `None` exactly where the text is not one that
/// fits.
pub fn parse_u64_chars(s: &Vec<char>) -> (r: Option<u64>)
    ensures
        r == parse_u64(s@),
{
    if s.len() == 0 {
        return None;
    }
    let mut acc: u64 = 0;
    let mut i: usize = 0;
    proof {
        assert(s@.take(0) =~= Seq::<char>::empty());
    }
    while i < s.len()
        invariant
            i <= s.len(),
            s@.len() >= 1,
            all_digits(s@.take(i as int)),
            acc as nat == dec_val(s@.take(i as int)),
        decreases s.len() - i,
    {
        let c = s[i];
        proof {
            assert(s@.take(i as int + 1).drop_last() =~= s@.take(i as int));
            assert(s@.take(i as int + 1).last() == s@[i as int]);
        }
        match char_digit_exec(c) {
            Some(d) => {
                let wide: u128 = (acc as u128) * 10 + (d as u128);
                proof {
                    assert(dec_val(s@.take(i as int + 1)) == dec_val(s@.take(i as int)) * 10 + (
                    d as nat));
                }
                if wide > u64::MAX as u128 {
                    proof {
                        if all_digits(s@) {
                            lemma_dec_val_prefix(s@, i as int + 1);
                        }
                    }
                    return None;
                }
                acc = wide as u64;
                i = i + 1;
            },
            None => {
                proof {
                    assert(char_digit(s@[i as int]) is None);
                    assert(!all_digits(s@));
                }
                return None;
            },
        }
    }
    proof {
        assert(s@.take(s@.len() as int) =~= s@);
    }
    Some(acc)
}

} // verus!
