//! File names for the documents that stand for notebook cells.
//!
//! A cell document lives beside its notebook as a hidden file whose name is
//! derived from the notebook's name and the cell's id, so that it is the same
//! every time the notebook is opened.
use vstd::prelude::*;

verus! {

/// Whether two string slices hold the same characters.
pub(crate) fn str_eq(a: &str, b: &str) -> (equal: bool)
    ensures
        equal == (a@ == b@),
{
    let n = a.unicode_len();
    if n != b.unicode_len() {
        return false;
    }
    let mut i: usize = 0;
    while i < n
        invariant
            n == a@.len(),
            n == b@.len(),
            i <= n,
            forall|k: int| 0 <= k < i ==> a@[k] == b@[k],
        decreases n - i,
    {
        if a.get_char(i) != b.get_char(i) {
            return false;
        }
        i = i + 1;
    }
    assert(a@ =~= b@);
    true
}

/// Appends one character to a string.
///
/// Calls `String::push`; the contract claims that the string afterwards
/// holds its former characters followed by `c`.
#[verifier::external_body]
pub(crate) fn push_char(s: &mut String, c: char)
    ensures
        final(s)@ == old(s)@.push(c),
{
    s.push(c)
}

/// ASCII letters and digits.
pub open spec fn is_ascii_alphanumeric(c: char) -> bool {
    ('0' <= c && c <= '9') || ('A' <= c && c <= 'Z') || ('a' <= c && c <= 'z')
}

/// The characters that a cell file name keeps as they are.
pub open spec fn is_safe_char(c: char) -> bool {
    is_ascii_alphanumeric(c) || c == '-' || c == '_'
}

/// A kept character, or `-` in place of any other.
pub open spec fn safe_char(c: char) -> char {
    if is_safe_char(c) {
        c
    } else {
        '-'
    }
}

/// `s` with every character that is not kept replaced by `-`.
pub open spec fn sanitized(s: Seq<char>) -> Seq<char> {
    s.map_values(|c: char| safe_char(c))
}

/// `s` without the `.` characters it starts with.
pub open spec fn trim_leading_dots(s: Seq<char>) -> Seq<char>
    decreases s.len(),
{
    if s.len() > 0 && s[0] == '.' {
        trim_leading_dots(s.drop_first())
    } else {
        s
    }
}

/// `.{notebook}.cell-{cell}.{extension}`, with the notebook name and the
/// cell id sanitized.
pub open spec fn cell_file_name(notebook_name: Seq<char>, cell_id: Seq<char>, extension: Seq<char>) -> Seq<char> {
    seq!['.'] + sanitized(notebook_name) + seq!['.', 'c', 'e', 'l', 'l', '-'] + sanitized(cell_id) + seq!['.']
        + extension
}

fn safe_char_exec(c: char) -> (r: char)
    ensures
        r == safe_char(c),
{
    if ('0' <= c && c <= '9') || ('A' <= c && c <= 'Z') || ('a' <= c && c <= 'z') || c == '-' || c == '_' {
        c
    } else {
        '-'
    }
}

/// Appends `text` to `out` with every character that is not kept replaced.
fn push_sanitized(out: &mut String, text: &str)
    ensures
        final(out)@ == old(out)@ + sanitized(text@),
{
    let n = text.unicode_len();
    let ghost start = out@;
    let mut i: usize = 0;
    while i < n
        invariant
            n == text@.len(),
            i <= n,
            out@ == start + sanitized(text@.take(i as int)),
        decreases n - i,
    {
        let c = text.get_char(i);
        push_char(out, safe_char_exec(c));
        assert(sanitized(text@.take(i + 1)) =~= sanitized(text@.take(i as int)).push(safe_char(c)));
        i = i + 1;
    }
    assert(text@.take(n as int) =~= text@);
}

/// Appends the characters of `text` to `out`.
pub(crate) fn push_str_chars(out: &mut String, text: &str)
    ensures
        final(out)@ == old(out)@ + text@,
{
    let n = text.unicode_len();
    let ghost start = out@;
    let mut i: usize = 0;
    while i < n
        invariant
            n == text@.len(),
            i <= n,
            out@ == start + text@.take(i as int),
        decreases n - i,
    {
        let c = text.get_char(i);
        push_char(out, c);
        assert(text@.take(i + 1) =~= text@.take(i as int).push(c));
        i = i + 1;
    }
    assert(text@.take(n as int) =~= text@);
}

/// The name of the hidden file that stands for cell `cell_id` of the
/// notebook named `notebook_name`: `.{notebook}.cell-{cell}.{extension}`,
/// where every character of the notebook name and of the cell id that is
/// not an ASCII letter, an ASCII digit, `-` or `_` becomes `-`.
pub fn safe_cell_file_name(notebook_name: &str, cell_id: &str, extension: &str) -> (name: String)
    ensures
        name@ == cell_file_name(notebook_name@, cell_id@, extension@),
{
    let mut name = String::new();
    push_char(&mut name, '.');
    push_sanitized(&mut name, notebook_name);
    push_char(&mut name, '.');
    push_char(&mut name, 'c');
    push_char(&mut name, 'e');
    push_char(&mut name, 'l');
    push_char(&mut name, 'l');
    push_char(&mut name, '-');
    push_sanitized(&mut name, cell_id);
    push_char(&mut name, '.');
    push_str_chars(&mut name, extension);
    assert(name@ =~= cell_file_name(notebook_name@, cell_id@, extension@));
    name
}

/// `text` without the `.` characters it starts with.
pub fn trim_start_dots(text: &str) -> (trimmed: &str)
    ensures
        trimmed@ == trim_leading_dots(text@),
{
    let n = text.unicode_len();
    let mut k: usize = 0;
    assert(text@.skip(0) =~= text@);
    while k < n && text.get_char(k) == '.'
        invariant
            n == text@.len(),
            k <= n,
            trim_leading_dots(text@) == trim_leading_dots(text@.skip(k as int)),
        decreases n - k,
    {
        assert(text@.skip(k as int).drop_first() =~= text@.skip(k + 1));
        k = k + 1;
    }
    assert(text@.subrange(k as int, n as int) =~= text@.skip(k as int));
    text.substring_char(k, n)
}

/// Sanitizing keeps the length and leaves only kept characters.
pub proof fn lemma_sanitized_is_safe(s: Seq<char>)
    ensures
        sanitized(s).len() == s.len(),
        forall|i: int| 0 <= i < s.len() ==> is_safe_char(#[trigger] sanitized(s)[i]),
{
}

/// Sanitizing a sanitized text changes nothing.
pub proof fn lemma_sanitized_idempotent(s: Seq<char>)
    ensures
        sanitized(sanitized(s)) == sanitized(s),
{
    assert(sanitized(sanitized(s)) =~= sanitized(s));
}

/// A cell file name is a single path component: whatever the notebook name
/// and the cell id hold, a `/` can only come from the extension.
pub proof fn lemma_cell_file_name_has_no_separator(notebook_name: Seq<char>, cell_id: Seq<char>, extension: Seq<char>)
    requires
        !extension.contains('/'),
    ensures
        !cell_file_name(notebook_name, cell_id, extension).contains('/'),
        cell_file_name(notebook_name, cell_id, extension)[0] == '.',
{
    let name = cell_file_name(notebook_name, cell_id, extension);
    let a = sanitized(notebook_name);
    let b = sanitized(cell_id);
    assert forall|i: int| 0 <= i < name.len() implies name[i] != '/' by {
        let p1 = 1 + a.len();
        let p2 = p1 + 6;
        let p3 = p2 + b.len();
        let p4 = p3 + 1;
        if i < 1 {
        } else if i < p1 {
            assert(name[i] == a[i - 1]);
        } else if i < p2 {
        } else if i < p3 {
            assert(name[i] == b[i - p2]);
        } else if i < p4 {
        } else {
            assert(name[i] == extension[i - p4]);
        }
    }
}


/// The characters that sanitizing turns into `-`: `-` itself and every
/// character that is not kept.
pub open spec fn becomes_dash(c: char) -> bool {
    !(is_ascii_alphanumeric(c) || c == '_')
}

/// Two texts sanitize alike exactly when they are equally long and hold,
/// position by position, the same character or two that become `-`.
pub proof fn lemma_sanitized_equal(a: Seq<char>, b: Seq<char>)
    ensures
        sanitized(a) == sanitized(b) <==> (a.len() == b.len() && forall|i: int|
            0 <= i < a.len() ==> #[trigger] a[i] == b[i] || (becomes_dash(a[i]) && becomes_dash(b[i]))),
{
    if sanitized(a) == sanitized(b) {
        assert forall|i: int| 0 <= i < a.len() implies #[trigger] a[i] == b[i] || (becomes_dash(a[i]) && becomes_dash(b[i])) by {
            assert(sanitized(a)[i] == safe_char(a[i]));
            assert(sanitized(b)[i] == safe_char(b[i]));
        }
    }
    if a.len() == b.len() && forall|i: int|
        0 <= i < a.len() ==> #[trigger] a[i] == b[i] || (becomes_dash(a[i]) && becomes_dash(b[i])) {
        assert forall|i: int| 0 <= i < a.len() implies sanitized(a)[i] == sanitized(b)[i] by {
            assert(a[i] == b[i] || (becomes_dash(a[i]) && becomes_dash(b[i])));
        }
        assert(sanitized(a) =~= sanitized(b));
    }
}

/// The parts of a cell file name around its dots.
spec fn joined(a: Seq<char>, b: Seq<char>, e: Seq<char>) -> Seq<char> {
    seq!['.'] + a + seq!['.', 'c', 'e', 'l', 'l', '-'] + b + seq!['.'] + e
}

proof fn lemma_joined_index(a: Seq<char>, b: Seq<char>, e: Seq<char>, i: int)
    requires
        0 <= i < joined(a, b, e).len(),
    ensures
        joined(a, b, e).len() == a.len() + b.len() + e.len() + 8,
        1 <= i < 1 + a.len() ==> joined(a, b, e)[i] == a[i - 1],
        i == 1 + a.len() ==> joined(a, b, e)[i] == '.',
        7 + a.len() <= i < 7 + a.len() + b.len() ==> joined(a, b, e)[i] == b[i - 7 - a.len()],
        i == 7 + a.len() + b.len() ==> joined(a, b, e)[i] == '.',
        8 + a.len() + b.len() <= i ==> joined(a, b, e)[i] == e[i - 8 - a.len() - b.len()],
{
}

/// A cell file name gives back its parts: the dots around the sanitized
/// notebook name and cell id, which hold no dot, mark where they end.
proof fn lemma_joined_split(a1: Seq<char>, b1: Seq<char>, e1: Seq<char>, a2: Seq<char>, b2: Seq<char>, e2: Seq<char>)
    requires
        !a1.contains('.'),
        !b1.contains('.'),
        !a2.contains('.'),
        !b2.contains('.'),
        joined(a1, b1, e1) == joined(a2, b2, e2),
    ensures
        a1 == a2,
        b1 == b2,
        e1 == e2,
{
    let n = joined(a1, b1, e1);
    if a1.len() < a2.len() {
        lemma_joined_index(a1, b1, e1, (1 + a1.len()) as int);
        lemma_joined_index(a2, b2, e2, (1 + a1.len()) as int);
        assert(a2.contains(a2[a1.len() as int]));
    } else if a2.len() < a1.len() {
        lemma_joined_index(a1, b1, e1, (1 + a2.len()) as int);
        lemma_joined_index(a2, b2, e2, (1 + a2.len()) as int);
        assert(a1.contains(a1[a2.len() as int]));
    }
    assert forall|i: int| 0 <= i < a1.len() implies a1[i] == a2[i] by {
        lemma_joined_index(a1, b1, e1, i + 1);
        lemma_joined_index(a2, b2, e2, i + 1);
    }
    assert(a1 =~= a2);
    let off: int = 7 + a1.len() as int;
    if b1.len() < b2.len() {
        lemma_joined_index(a1, b1, e1, (off + b1.len()) as int);
        lemma_joined_index(a2, b2, e2, (off + b1.len()) as int);
        assert(b2.contains(b2[b1.len() as int]));
    } else if b2.len() < b1.len() {
        lemma_joined_index(a1, b1, e1, (off + b2.len()) as int);
        lemma_joined_index(a2, b2, e2, (off + b2.len()) as int);
        assert(b1.contains(b1[b2.len() as int]));
    }
    assert forall|i: int| 0 <= i < b1.len() implies b1[i] == b2[i] by {
        lemma_joined_index(a1, b1, e1, off + i);
        lemma_joined_index(a2, b2, e2, off + i);
    }
    assert(b1 =~= b2);
    lemma_joined_index(a1, b1, e1, 0);
    lemma_joined_index(a2, b2, e2, 0);
    assert forall|i: int| 0 <= i < e1.len() implies e1[i] == e2[i] by {
        lemma_joined_index(a1, b1, e1, off + b1.len() + 1 + i);
        lemma_joined_index(a2, b2, e2, off + b1.len() + 1 + i);
    }
    assert(e1 =~= e2);
}

proof fn lemma_sanitized_has_no_dot(s: Seq<char>)
    ensures
        !sanitized(s).contains('.'),
{
    assert forall|i: int| 0 <= i < sanitized(s).len() implies sanitized(s)[i] != '.' by {
        assert(sanitized(s)[i] == safe_char(s[i]));
    }
}

/// Two cells get the same file name exactly when their extensions are
/// equal and their notebook names and their cell ids sanitize alike (see
/// `lemma_sanitized_equal`).
pub proof fn lemma_cell_file_name_injective(
    notebook1: Seq<char>,
    cell1: Seq<char>,
    extension1: Seq<char>,
    notebook2: Seq<char>,
    cell2: Seq<char>,
    extension2: Seq<char>,
)
    ensures
        cell_file_name(notebook1, cell1, extension1) == cell_file_name(notebook2, cell2, extension2) <==> (
        extension1 == extension2 && sanitized(notebook1) == sanitized(notebook2) && sanitized(cell1) == sanitized(cell2)),
{
    assert(cell_file_name(notebook1, cell1, extension1) == joined(sanitized(notebook1), sanitized(cell1), extension1));
    assert(cell_file_name(notebook2, cell2, extension2) == joined(sanitized(notebook2), sanitized(cell2), extension2));
    if cell_file_name(notebook1, cell1, extension1) == cell_file_name(notebook2, cell2, extension2) {
        lemma_sanitized_has_no_dot(notebook1);
        lemma_sanitized_has_no_dot(notebook2);
        lemma_sanitized_has_no_dot(cell1);
        lemma_sanitized_has_no_dot(cell2);
        lemma_joined_split(
            sanitized(notebook1),
            sanitized(cell1),
            extension1,
            sanitized(notebook2),
            sanitized(cell2),
            extension2,
        );
    }
}


/// Sanitizing keeps every ASCII letter, upper or lower case, every ASCII
/// digit, `-` and `_`, and turns every other character into `-`.
pub proof fn lemma_safe_char_keeps_letters_digits_dash_underscore(c: char)
    ensures
        ('A' <= c <= 'Z' || 'a' <= c <= 'z' || '0' <= c <= '9' || c == '-' || c == '_') ==> safe_char(c) == c,
        !('A' <= c <= 'Z' || 'a' <= c <= 'z' || '0' <= c <= '9' || c == '-' || c == '_') ==> safe_char(c) == '-',
{
}

/// A text made only of ASCII letters, digits, `-` and `_` is its own
/// sanitized form, and a notebook name and cell id of that kind stand in
/// the cell file name as they are.
pub proof fn lemma_plain_names_are_kept(notebook_name: Seq<char>, cell_id: Seq<char>, extension: Seq<char>)
    requires
        forall|i: int|
            0 <= i < notebook_name.len() ==> {
                let c = #[trigger] notebook_name[i];
                'A' <= c <= 'Z' || 'a' <= c <= 'z' || '0' <= c <= '9' || c == '-' || c == '_'
            },
        forall|i: int|
            0 <= i < cell_id.len() ==> {
                let c = #[trigger] cell_id[i];
                'A' <= c <= 'Z' || 'a' <= c <= 'z' || '0' <= c <= '9' || c == '-' || c == '_'
            },
    ensures
        sanitized(notebook_name) == notebook_name,
        sanitized(cell_id) == cell_id,
        cell_file_name(notebook_name, cell_id, extension) == seq!['.'] + notebook_name + seq![
            '.',
            'c',
            'e',
            'l',
            'l',
            '-',
        ] + cell_id + seq!['.'] + extension,
{
    assert forall|i: int| 0 <= i < notebook_name.len() implies sanitized(notebook_name)[i] == notebook_name[i] by {
        lemma_safe_char_keeps_letters_digits_dash_underscore(notebook_name[i]);
    }
    assert forall|i: int| 0 <= i < cell_id.len() implies sanitized(cell_id)[i] == cell_id[i] by {
        lemma_safe_char_keeps_letters_digits_dash_underscore(cell_id[i]);
    }
    assert(sanitized(notebook_name) =~= notebook_name);
    assert(sanitized(cell_id) =~= cell_id);
}

} // verus!
