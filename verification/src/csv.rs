//! Ingestion of tabular catalog text: one header line naming the
//! columns, then one course per line. A field may be double-quoted to
//! hold commas; a doubled quote inside a quoted field is not supported.
use vstd::prelude::*;

use crate::course::Course;
use crate::course::CourseInput;
use crate::course::CourseView;
use crate::course::spec_course_from_input;
use crate::parser::spec_parse;

verus! {

/// The length of the leading run of characters other than the given one.
pub open spec fn run_until(s: Seq<char>, stop: char) -> nat
    decreases s.len(),
{
    if s.len() > 0 && s[0] != stop {
        1 + run_until(s.drop_first(), stop)
    } else {
        0
    }
}

/// A leading run never runs past the end of the sequence.
proof fn lemma_run_until_le(s: Seq<char>, stop: char)
    ensures
        run_until(s, stop) <= s.len(),
        run_until(s, stop) < s.len() ==> s[run_until(s, stop) as int] == stop,
    decreases s.len(),
{
    if s.len() > 0 && s[0] != stop {
        lemma_run_until_le(s.drop_first(), stop);
        assert(s.drop_first() =~= s.skip(1));
        let k = run_until(s.drop_first(), stop) as int;
        if k < s.len() - 1 {
            assert(s.skip(1)[k] == s[k + 1]);
        }
    }
}

/// The run scanned forward ends exactly where the recursive run length
/// says.
proof fn lemma_run_until_at(s: Seq<char>, stop: char, i: int, j: int)
    requires
        0 <= i <= j <= s.len(),
        forall|k: int| i <= k < j ==> s[k] != stop,
        j < s.len() ==> s[j] == stop,
    ensures
        run_until(s.skip(i), stop) == j - i,
    decreases j - i,
{
    if i == j {
        if s.skip(i).len() > 0 {
            assert(s.skip(i)[0] == s[j]);
        }
    } else {
        assert(s.skip(i)[0] == s[i]);
        assert(s.skip(i).drop_first() =~= s.skip(i + 1));
        lemma_run_until_at(s, stop, i + 1, j);
    }
}

/// A line with a trailing carriage return removed.
pub open spec fn trim_cr(line: Seq<char>) -> Seq<char> {
    if line.len() > 0 && line.last() == '\r' {
        line.drop_last()
    } else {
        line
    }
}

/// The non-empty lines of the text, split at line feeds, each without
/// its trailing carriage return.
pub open spec fn sp_lines(s: Seq<char>) -> Seq<Seq<char>>
    decreases s.len(),
    via sp_lines_decreases
{
    if s.len() == 0 {
        Seq::empty()
    } else {
        let k = run_until(s, '\n') as int;
        let line = trim_cr(s.take(k));
        let rest = if k < s.len() {
            sp_lines(s.skip(k + 1))
        } else {
            Seq::empty()
        };
        if line.len() == 0 {
            rest
        } else {
            seq![line] + rest
        }
    }
}

#[via_fn]
proof fn sp_lines_decreases(s: Seq<char>) {
    if s.len() > 0 {
        lemma_run_until_le(s, '\n');
    }
}

/// One field of a record: a double-quoted field may hold commas and
/// ends at its closing quote; an unquoted field ends before the next
/// comma. Returns the field and what follows it.
pub open spec fn sp_field(line: Seq<char>) -> Option<(Seq<char>, Seq<char>)> {
    if line.len() > 0 && line[0] == '"' {
        let k = run_until(line.skip(1), '"') as int;
        if 1 + k < line.len() {
            Some((line.skip(1).take(k), line.skip(2 + k)))
        } else {
            None
        }
    } else {
        let k = run_until(line, ',') as int;
        Some((line.take(k), line.skip(k)))
    }
}

/// The comma-separated fields of one line; anything but a comma after a
/// closing quote refuses the line.
pub open spec fn sp_record(line: Seq<char>) -> Option<Seq<Seq<char>>>
    decreases line.len(),
{
    match sp_field(line) {
        None => None,
        Some((f, rest)) => {
            if rest.len() == 0 {
                Some(seq![f])
            } else if rest[0] == ',' && rest.len() <= line.len() {
                match sp_record(rest.skip(1)) {
                    None => None,
                    Some(fs) => Some(seq![f] + fs),
                }
            } else {
                None
            }
        },
    }
}

/// The position of the first field equal to the given name.
pub open spec fn sp_find_field(fields: Seq<Seq<char>>, name: Seq<char>) -> Option<int>
    decreases fields.len(),
{
    if fields.len() == 0 {
        None
    } else if fields[0] == name {
        Some(0)
    } else {
        match sp_find_field(fields.drop_first(), name) {
            Some(i) => Some(i + 1),
            None => None,
        }
    }
}

/// A case-insensitive boolean token: `true` or `false` in any casing.
pub open spec fn sp_bool_token(f: Seq<char>) -> Option<bool> {
    if f.len() == 4 && (f[0] == 't' || f[0] == 'T') && (f[1] == 'r' || f[1] == 'R') && (f[2] == 'u'
        || f[2] == 'U') && (f[3] == 'e' || f[3] == 'E') {
        Some(true)
    } else if f.len() == 5 && (f[0] == 'f' || f[0] == 'F') && (f[1] == 'a' || f[1] == 'A') && (f[2]
        == 'l' || f[2] == 'L') && (f[3] == 's' || f[3] == 'S') && (f[4] == 'e' || f[4] == 'E') {
        Some(false)
    } else {
        None
    }
}

/// A catalog code: one or more decimal digits, fitting the code type.
pub open spec fn sp_catalog_token(f: Seq<char>) -> Option<u32> {
    if f.len() > 0 && crate::parser::digit_run(f) == f.len() && crate::parser::digits_value(f)
        <= u32::MAX {
        Some(crate::parser::digits_value(f) as u32)
    } else {
        None
    }
}

/// Where each named column sits in the header.
pub ghost struct HeaderView {
    pub subject: int,
    pub catalog: int,
    pub name: int,
    pub prerequisites: int,
    pub winter: int,
    pub summer: int,
    pub fall: int,
}

/// The columns the header names; every one of the seven must be there.
pub open spec fn sp_header(fields: Seq<Seq<char>>) -> Option<HeaderView> {
    let subject = sp_find_field(fields, "Subject"@);
    let catalog = sp_find_field(fields, "Catalog"@);
    let name = sp_find_field(fields, "Name"@);
    let prerequisites = sp_find_field(fields, "Prerequisites"@);
    let winter = sp_find_field(fields, "Winter"@);
    let summer = sp_find_field(fields, "Summer"@);
    let fall = sp_find_field(fields, "Fall"@);
    if subject is Some && catalog is Some && name is Some && prerequisites is Some && winter
        is Some && summer is Some && fall is Some {
        Some(
            HeaderView {
                subject: subject->Some_0,
                catalog: catalog->Some_0,
                name: name->Some_0,
                prerequisites: prerequisites->Some_0,
                winter: winter->Some_0,
                summer: summer->Some_0,
                fall: fall->Some_0,
            },
        )
    } else {
        None
    }
}

/// The course one row describes: the row must have as many fields as
/// the header, hold a valid code and three valid boolean tokens, and a
/// non-empty prerequisite text must parse; an empty text means no
/// prerequisite.
pub open spec fn sp_row_course(fields: Seq<Seq<char>>, h: HeaderView, width: int) -> Option<
    CourseView,
> {
    if fields.len() != width {
        None
    } else {
        let catalog = sp_catalog_token(fields[h.catalog]);
        let winter = sp_bool_token(fields[h.winter]);
        let summer = sp_bool_token(fields[h.summer]);
        let fall = sp_bool_token(fields[h.fall]);
        let prereq_text = fields[h.prerequisites];
        let prereq = if prereq_text.len() == 0 {
            Some(None)
        } else {
            match spec_parse(prereq_text) {
                Some(t) => Some(Some(t)),
                None => None,
            }
        };
        if catalog is Some && winter is Some && summer is Some && fall is Some && prereq is Some {
            Some(
                CourseView {
                    subject: fields[h.subject],
                    name: fields[h.name],
                    catalog: catalog->Some_0,
                    prereq: prereq->Some_0,
                    offered: crate::course::TermsOffered {
                        summer: summer->Some_0,
                        fall: fall->Some_0,
                        winter: winter->Some_0,
                    },
                },
            )
        } else {
            None
        }
    }
}

/// The courses of the rows from position `i` on.
pub open spec fn sp_rows(lines: Seq<Seq<char>>, h: HeaderView, width: int, i: int) -> Option<
    Seq<CourseView>,
>
    decreases lines.len() - i,
{
    if i < 0 || i >= lines.len() {
        Some(Seq::empty())
    } else {
        match sp_record(lines[i]) {
            None => None,
            Some(fields) => match sp_row_course(fields, h, width) {
                None => None,
                Some(c) => match sp_rows(lines, h, width, i + 1) {
                    None => None,
                    Some(cs) => Some(seq![c] + cs),
                },
            },
        }
    }
}

/// The courses the whole text describes: the first non-empty line names
/// the columns, every later line is one course; a text without lines
/// holds no courses.
pub open spec fn spec_parse_csv(s: Seq<char>) -> Option<Seq<CourseView>> {
    let lines = sp_lines(s);
    if lines.len() == 0 {
        Some(Seq::empty())
    } else {
        match sp_record(lines[0]) {
            None => None,
            Some(header_fields) => match sp_header(header_fields) {
                None => None,
                Some(h) => sp_rows(lines, h, header_fields.len() as int, 1),
            },
        }
    }
}

/// What `sp_find_field` returns: the first position holding the name.
proof fn lemma_find_field(fields: Seq<Seq<char>>, name: Seq<char>)
    ensures
        match sp_find_field(fields, name) {
            Some(i) => 0 <= i < fields.len() && fields[i] == name && forall|j: int|
                0 <= j < i ==> fields[j] != name,
            None => forall|j: int| 0 <= j < fields.len() ==> fields[j] != name,
        },
    decreases fields.len(),
{
    if fields.len() > 0 && fields[0] != name {
        let rest = fields.drop_first();
        lemma_find_field(rest, name);
        match sp_find_field(rest, name) {
            Some(i) => {
                assert(fields[i + 1] == rest[i]);
                assert forall|j: int| 0 <= j < i + 1 implies fields[j] != name by {
                    if j > 0 {
                        assert(fields[j] == rest[j - 1]);
                    }
                }
            },
            None => {
                assert forall|j: int| 0 <= j < fields.len() implies fields[j] != name by {
                    if j > 0 {
                        assert(fields[j] == rest[j - 1]);
                    }
                }
            },
        }
    }
}

/// Whether a field is exactly the given text.
fn field_is(f: &String, lit: &str) -> (r: bool)
    ensures
        r == (f@ == lit@),
{
    let l: String = lit.to_owned();
    *f == l
}

/// The position of the first header field with the given name.
fn header_index(fields: &Vec<String>, name: &str) -> (r: Option<usize>)
    ensures
        match r {
            Some(i) => sp_find_field(fields.deep_view(), name@) == Some(i as int) && i
                < fields@.len(),
            None => sp_find_field(fields.deep_view(), name@) is None,
        },
{
    let ghost fv = fields.deep_view();
    let n = fields.len();
    let mut i: usize = 0;
    while i < n
        invariant
            0 <= i <= n,
            n == fields@.len(),
            fv == fields.deep_view(),
            forall|j: int| 0 <= j < i ==> fv[j] != name@,
        decreases n - i,
    {
        if field_is(&fields[i], name) {
            proof {
                lemma_find_field(fv, name@);
                assert(fv[i as int] == name@);
                match sp_find_field(fv, name@) {
                    Some(kk) => {
                        if kk < i {
                            assert(fv[kk] != name@);
                        }
                        if kk > i {
                            assert(fv[i as int] != name@);
                        }
                    },
                    None => {
                        assert(fv[i as int] != name@);
                    },
                }
            }
            return Some(i);
        }
        i += 1;
    }
    proof {
        lemma_find_field(fv, name@);
    }
    None
}

/// The non-empty lines of the text, split at line feeds, each without
/// its trailing carriage return.
fn split_lines(input: &str) -> (r: Vec<String>)
    ensures
        r.deep_view() == sp_lines(input@),
{
    let ghost s = input@;
    let n = input.unicode_len();
    let mut lines: Vec<String> = Vec::new();
    let mut i: usize = 0;
    proof {
        assert(lines.deep_view() =~= Seq::<Seq<char>>::empty());
        assert(s.skip(0) =~= s);
        assert(lines.deep_view() + sp_lines(s) =~= sp_lines(s));
    }
    while i < n
        invariant
            0 <= i <= n,
            n == s.len(),
            s == input@,
            sp_lines(s) == lines.deep_view() + sp_lines(s.skip(i as int)),
        decreases n - i,
    {
        let ghost lines_before = lines.deep_view();
        let mut j = i;
        while j < n
            invariant
                i <= j <= n,
                n == s.len(),
                s == input@,
                forall|k: int| i <= k < j ==> s[k] != '\n',
            ensures
                i <= j <= n,
                forall|k: int| i <= k < j ==> s[k] != '\n',
                j < n ==> s[j as int] == '\n',
            decreases n - j,
        {
            if input.get_char(j) == '\n' {
                break;
            }
            j += 1;
        }
        proof {
            lemma_run_until_at(s, '\n', i as int, j as int);
        }
        let mut end = j;
        if end > i && input.get_char(end - 1) == '\r' {
            end -= 1;
        }
        proof {
            assert(s.skip(i as int).take(j - i) =~= s.subrange(i as int, j as int));
            assert(trim_cr(s.subrange(i as int, j as int)) =~= s.subrange(i as int, end as int));
        }
        if end > i {
            let line = input.substring_char(i, end).to_owned();
            proof {
                assert(line@ =~= s.subrange(i as int, end as int));
            }
            lines.push(line);
            proof {
                assert(lines.deep_view() =~= lines_before.push(s.subrange(i as int, end as int)));
            }
        }
        proof {
            if j < n {
                assert(s.skip(i as int).skip(j - i + 1) =~= s.skip(j as int + 1));
            }
            let tail = if j < n {
                sp_lines(s.skip(j as int + 1))
            } else {
                Seq::<Seq<char>>::empty()
            };
            if end > i {
                assert(sp_lines(s.skip(i as int)) == seq![s.subrange(i as int, end as int)]
                    + tail);
                assert(lines_before + (seq![s.subrange(i as int, end as int)] + tail)
                    =~= lines.deep_view() + tail);
            } else {
                assert(sp_lines(s.skip(i as int)) == tail);
            }
            if j == n {
                assert(s.skip(n as int) =~= Seq::<char>::empty());
                assert(lines.deep_view() + Seq::<Seq<char>>::empty() =~= lines.deep_view());
            }
        }
        if j < n {
            i = j + 1;
        } else {
            i = n;
        }
    }
    proof {
        assert(s.skip(n as int) =~= Seq::<char>::empty());
        assert(lines.deep_view() + Seq::<Seq<char>>::empty() =~= lines.deep_view());
    }
    lines
}

/// The comma-separated fields of the line from this position on.
fn parse_fields(line: &str, pos: usize) -> (r: Option<Vec<String>>)
    requires
        pos <= line@.len(),
    ensures
        match r {
            Some(fs) => sp_record(line@.skip(pos as int)) == Some(fs.deep_view()),
            None => sp_record(line@.skip(pos as int)) is None,
        },
    decreases line@.len() - pos,
{
    let ghost s = line@;
    let n = line.unicode_len();
    // one field, and the position of what follows it
    let quoted = pos < n && line.get_char(pos) == '"';
    proof {
        if s.skip(pos as int).len() > 0 {
            assert(s.skip(pos as int)[0] == s[pos as int]);
        }
    }
    let (field, rest_pos): (String, usize) = if quoted {
        let mut j = pos + 1;
        while j < n
            invariant
                pos + 1 <= j <= n,
                n == s.len(),
                s == line@,
                forall|k: int| pos + 1 <= k < j ==> s[k] != '"',
            ensures
                pos + 1 <= j <= n,
                forall|k: int| pos + 1 <= k < j ==> s[k] != '"',
                j < n ==> s[j as int] == '"',
            decreases n - j,
        {
            if line.get_char(j) == '"' {
                break;
            }
            j += 1;
        }
        proof {
            lemma_run_until_at(s, '"', pos as int + 1, j as int);
            assert(s.skip(pos as int).skip(1) =~= s.skip(pos as int + 1));
        }
        if j >= n {
            // no closing quote
            proof {
                assert(1 + run_until(s.skip(pos as int).skip(1), '"') >= s.skip(pos as int).len());
            }
            return None;
        }
        let f = line.substring_char(pos + 1, j).to_owned();
        proof {
            assert(f@ =~= s.skip(pos as int).skip(1).take(j - pos - 1));
            assert(s.skip(pos as int).skip(2 + (j - pos - 1)) =~= s.skip(j as int + 1));
        }
        (f, j + 1)
    } else {
        let mut j = pos;
        while j < n
            invariant
                pos <= j <= n,
                n == s.len(),
                s == line@,
                forall|k: int| pos <= k < j ==> s[k] != ',',
            ensures
                pos <= j <= n,
                forall|k: int| pos <= k < j ==> s[k] != ',',
                j < n ==> s[j as int] == ',',
            decreases n - j,
        {
            if line.get_char(j) == ',' {
                break;
            }
            j += 1;
        }
        proof {
            lemma_run_until_at(s, ',', pos as int, j as int);
        }
        let f = line.substring_char(pos, j).to_owned();
        proof {
            assert(f@ =~= s.skip(pos as int).take(j - pos));
            assert(s.skip(pos as int).skip(j - pos) =~= s.skip(j as int));
        }
        (f, j)
    };
    let ghost fv = field@;
    proof {
        if rest_pos < n {
            assert(s.skip(rest_pos as int)[0] == s[rest_pos as int]);
        }
    }
    if rest_pos >= n {
        proof {
            assert(s.skip(rest_pos as int).len() == 0);
        }
        let mut fields: Vec<String> = Vec::new();
        fields.push(field);
        proof {
            assert(fields.deep_view() =~= seq![fv]);
        }
        return Some(fields);
    }
    let sep = line.get_char(rest_pos);
    if sep != ',' {
        return None;
    }
    proof {
        assert(s.skip(rest_pos as int).skip(1) =~= s.skip(rest_pos as int + 1));
    }
    match parse_fields(line, rest_pos + 1) {
        None => None,
        Some(mut fields) => {
            let ghost rest_fields = fields.deep_view();
            fields.insert(0, field);
            proof {
                assert(fields.deep_view() =~= seq![fv] + rest_fields);
            }
            Some(fields)
        },
    }
}

/// A case-insensitive boolean token: `true` or `false` in any casing.
fn parse_bool_field(f: &String) -> (r: Option<bool>)
    ensures
        r == sp_bool_token(f@),
{
    let t = f.as_str();
    let n = t.unicode_len();
    if n == 4 {
        let c0 = t.get_char(0);
        let c1 = t.get_char(1);
        let c2 = t.get_char(2);
        let c3 = t.get_char(3);
        if (c0 == 't' || c0 == 'T') && (c1 == 'r' || c1 == 'R') && (c2 == 'u' || c2 == 'U') && (c3
            == 'e' || c3 == 'E') {
            Some(true)
        } else {
            None
        }
    } else if n == 5 {
        let c0 = t.get_char(0);
        let c1 = t.get_char(1);
        let c2 = t.get_char(2);
        let c3 = t.get_char(3);
        let c4 = t.get_char(4);
        if (c0 == 'f' || c0 == 'F') && (c1 == 'a' || c1 == 'A') && (c2 == 'l' || c2 == 'L') && (c3
            == 's' || c3 == 'S') && (c4 == 'e' || c4 == 'E') {
            Some(false)
        } else {
            None
        }
    } else {
        None
    }
}

/// A catalog code field: decimal digits only, fitting the code type.
fn parse_catalog_field(f: &String) -> (r: Option<u32>)
    ensures
        r == sp_catalog_token(f@),
{
    let ghost s = f@;
    let t = f.as_str();
    let n = t.unicode_len();
    if n == 0 {
        return None;
    }
    // every character must be a digit
    let mut k: usize = 0;
    while k < n
        invariant
            0 <= k <= n,
            n == s.len(),
            s == f@,
            t@ == s,
            forall|m: int| 0 <= m < k ==> crate::parser::is_digit(s[m]),
        decreases n - k,
    {
        let c = t.get_char(k);
        let u = c as u32;
        if !(('0' as u32) <= u && u <= ('9' as u32)) {
            proof {
                lemma_digit_run_stops(s, k as int);
            }
            return None;
        }
        k += 1;
    }
    proof {
        lemma_digit_run_full(s);
    }
    // the value, refused when it does not fit
    let mut acc: u64 = 0;
    let mut k2: usize = 0;
    while k2 < n
        invariant
            0 <= k2 <= n,
            n == s.len(),
            s == f@,
            t@ == s,
            forall|m: int| 0 <= m < n ==> crate::parser::is_digit(s[m]),
            crate::parser::digit_run(s) == s.len(),
            acc <= u32::MAX,
            acc == crate::parser::digits_value(s.subrange(0, k2 as int)),
        decreases n - k2,
    {
        let c = t.get_char(k2);
        let u = c as u32;
        proof {
            assert(crate::parser::is_digit(s[k2 as int]));
            assert(s.subrange(0, k2 as int + 1).drop_last() =~= s.subrange(0, k2 as int));
            assert(s.subrange(0, k2 as int + 1).last() == s[k2 as int]);
        }
        acc = acc * 10 + ((u - ('0' as u32)) as u64);
        if acc > (u32::MAX as u64) {
            proof {
                lemma_digits_value_grow(s, k2 as int + 1, n as int);
                assert(s.subrange(0, n as int) =~= s);
            }
            return None;
        }
        k2 += 1;
    }
    proof {
        assert(s.subrange(0, n as int) =~= s);
    }
    Some(acc as u32)
}

/// A digit run stops at the first non-digit.
proof fn lemma_digit_run_stops(s: Seq<char>, k: int)
    requires
        0 <= k < s.len(),
        forall|m: int| 0 <= m < k ==> crate::parser::is_digit(s[m]),
        !crate::parser::is_digit(s[k]),
    ensures
        crate::parser::digit_run(s) < s.len(),
    decreases k,
{
    if k > 0 {
        assert(s.drop_first() =~= s.skip(1));
        assert(forall|m: int| 0 <= m < k - 1 ==> crate::parser::is_digit(s.skip(1)[m]));
        assert(s.skip(1)[k - 1] == s[k]);
        lemma_digit_run_stops(s.skip(1), k - 1);
    }
}

/// A sequence of digits is one whole digit run.
proof fn lemma_digit_run_full(s: Seq<char>)
    requires
        forall|m: int| 0 <= m < s.len() ==> crate::parser::is_digit(s[m]),
    ensures
        crate::parser::digit_run(s) == s.len(),
    decreases s.len(),
{
    if s.len() > 0 {
        assert(s.drop_first() =~= s.skip(1));
        assert(forall|m: int| 0 <= m < s.len() - 1 ==> crate::parser::is_digit(s.skip(1)[m]));
        lemma_digit_run_full(s.skip(1));
    }
}

/// More digits never shrink the value.
proof fn lemma_digits_value_grow(s: Seq<char>, k: int, j: int)
    requires
        0 <= k <= j <= s.len(),
        forall|m: int| 0 <= m < j ==> crate::parser::is_digit(s[m]),
    ensures
        crate::parser::digits_value(s.subrange(0, j)) >= crate::parser::digits_value(
            s.subrange(0, k),
        ),
        crate::parser::digits_value(s.subrange(0, k)) >= 0,
    decreases j - k,
{
    if k == 0 {
        assert(s.subrange(0, 0) =~= Seq::<char>::empty());
        if j > 0 {
            lemma_digits_value_grow(s, 1, j);
            assert(s.subrange(0, 1).drop_last() =~= Seq::<char>::empty());
        }
    } else if k < j {
        lemma_digits_value_grow(s, k + 1, j);
        assert(s.subrange(0, k + 1).drop_last() =~= s.subrange(0, k));
        assert(s.subrange(0, k + 1).last() == s[k]);
        lemma_digits_value_grow(s, k, k);
    } else {
        lemma_digits_value_nonneg_from_zero(s, k);
    }
}

/// Parses catalog text into courses: the first non-empty line names the
/// columns, every later line describes one course; the prerequisite
/// text of each course is parsed into its tree. A malformed line, a
/// missing column, a bad code or boolean token, or a prerequisite text
/// that does not parse refuses the whole text.
pub fn parse_csv_to_courses(input: &str) -> (r: Result<Vec<Course>, String>)
    ensures
        (r is Ok) == (spec_parse_csv(input@) is Some),
        r matches Ok(cs) ==> Some(cs.deep_view()) == spec_parse_csv(input@),
        r matches Err(e) ==> e@ == "could not parse catalog text"@ || e@
            == "could not parse prerequisites"@,
{
    let ghost sv = input@;
    let lines = split_lines(input);
    let ghost linesv = lines.deep_view();
    let n = lines.len();
    if n == 0 {
        let empty: Vec<Course> = Vec::new();
        proof {
            assert(empty.deep_view() =~= Seq::<CourseView>::empty());
        }
        return Ok(empty);
    }
    let header_fields = match parse_fields(lines[0].as_str(), 0) {
        None => {
            proof {
                assert(linesv[0].skip(0) =~= linesv[0]);
            }
            let msg: String = "could not parse catalog text".to_owned();
            return Err(msg);
        },
        Some(f) => f,
    };
    proof {
        assert(linesv[0].skip(0) =~= linesv[0]);
    }
    let ghost hfv = header_fields.deep_view();
    let subject_idx = match header_index(&header_fields, "Subject") {
        None => {
            let msg: String = "could not parse catalog text".to_owned();
            return Err(msg);
        },
        Some(i) => i,
    };
    let catalog_idx = match header_index(&header_fields, "Catalog") {
        None => {
            let msg: String = "could not parse catalog text".to_owned();
            return Err(msg);
        },
        Some(i) => i,
    };
    let name_idx = match header_index(&header_fields, "Name") {
        None => {
            let msg: String = "could not parse catalog text".to_owned();
            return Err(msg);
        },
        Some(i) => i,
    };
    let prereq_idx = match header_index(&header_fields, "Prerequisites") {
        None => {
            let msg: String = "could not parse catalog text".to_owned();
            return Err(msg);
        },
        Some(i) => i,
    };
    let winter_idx = match header_index(&header_fields, "Winter") {
        None => {
            let msg: String = "could not parse catalog text".to_owned();
            return Err(msg);
        },
        Some(i) => i,
    };
    let summer_idx = match header_index(&header_fields, "Summer") {
        None => {
            let msg: String = "could not parse catalog text".to_owned();
            return Err(msg);
        },
        Some(i) => i,
    };
    let fall_idx = match header_index(&header_fields, "Fall") {
        None => {
            let msg: String = "could not parse catalog text".to_owned();
            return Err(msg);
        },
        Some(i) => i,
    };
    let ghost h = HeaderView {
        subject: subject_idx as int,
        catalog: catalog_idx as int,
        name: name_idx as int,
        prerequisites: prereq_idx as int,
        winter: winter_idx as int,
        summer: summer_idx as int,
        fall: fall_idx as int,
    };
    proof {
        assert(sp_header(hfv) == Some(h));
    }
    let width = header_fields.len();
    let mut courses: Vec<Course> = Vec::new();
    let mut i: usize = 1;
    proof {
        assert(courses.deep_view() =~= Seq::<CourseView>::empty());
        match sp_rows(linesv, h, width as int, 1) {
            Some(cs) => {
                assert(courses.deep_view() + cs =~= cs);
            },
            None => {},
        }
    }
    while i < n
        invariant
            1 <= i <= n,
            n == lines@.len(),
            linesv == lines.deep_view(),
            sv == input@,
            width == header_fields@.len(),
            subject_idx < width && catalog_idx < width && name_idx < width && prereq_idx < width
                && winter_idx < width && summer_idx < width && fall_idx < width,
            h == (HeaderView {
                subject: subject_idx as int,
                catalog: catalog_idx as int,
                name: name_idx as int,
                prerequisites: prereq_idx as int,
                winter: winter_idx as int,
                summer: summer_idx as int,
                fall: fall_idx as int,
            }),
            match sp_rows(linesv, h, width as int, i as int) {
                Some(cs) => spec_parse_csv(sv) == Some(courses.deep_view() + cs),
                None => spec_parse_csv(sv) is None,
            },
        decreases n - i,
    {
        let ghost courses_before = courses.deep_view();
        let row = match parse_fields(lines[i].as_str(), 0) {
            None => {
                proof {
                    assert(linesv[i as int].skip(0) =~= linesv[i as int]);
                }
                let msg: String = "could not parse catalog text".to_owned();
                return Err(msg);
            },
            Some(f) => f,
        };
        proof {
            assert(linesv[i as int].skip(0) =~= linesv[i as int]);
        }
        let ghost rowv = row.deep_view();
        if row.len() != width {
            let msg: String = "could not parse catalog text".to_owned();
            return Err(msg);
        }
        let catalog = match parse_catalog_field(&row[catalog_idx]) {
            None => {
                let msg: String = "could not parse catalog text".to_owned();
                return Err(msg);
            },
            Some(v) => v,
        };
        let winter = match parse_bool_field(&row[winter_idx]) {
            None => {
                let msg: String = "could not parse catalog text".to_owned();
                return Err(msg);
            },
            Some(v) => v,
        };
        let summer = match parse_bool_field(&row[summer_idx]) {
            None => {
                let msg: String = "could not parse catalog text".to_owned();
                return Err(msg);
            },
            Some(v) => v,
        };
        let fall = match parse_bool_field(&row[fall_idx]) {
            None => {
                let msg: String = "could not parse catalog text".to_owned();
                return Err(msg);
            },
            Some(v) => v,
        };
        let prerequisites: Option<String> = if row[prereq_idx].as_str().unicode_len() == 0 {
            None
        } else {
            Some(row[prereq_idx].clone())
        };
        let course_input = CourseInput {
            subject: row[subject_idx].clone(),
            catalog,
            name: row[name_idx].clone(),
            prerequisites,
            winter,
            summer,
            fall,
        };
        match Course::new(course_input) {
            Ok(c) => {
                proof {
                    assert(sp_row_course(rowv, h, width as int) == Some(c.deep_view()));
                }
                courses.push(c);
                proof {
                    assert(courses.deep_view() =~= courses_before.push(
                        sp_row_course(rowv, h, width as int)->Some_0,
                    ));
                    match sp_rows(linesv, h, width as int, i as int + 1) {
                        Some(cs) => {
                            assert(courses_before + (seq![
                                sp_row_course(rowv, h, width as int)->Some_0,
                            ] + cs) =~= courses.deep_view() + cs);
                        },
                        None => {},
                    }
                }
                i += 1;
            },
            Err(e) => {
                proof {
                    assert(sp_row_course(rowv, h, width as int) is None);
                }
                return Err(e);
            },
        }
    }
    proof {
        assert(courses.deep_view() + Seq::<CourseView>::empty() =~= courses.deep_view());
    }
    Ok(courses)
}

/// The value of a digit prefix is never negative.
proof fn lemma_digits_value_nonneg_from_zero(s: Seq<char>, k: int)
    requires
        0 <= k <= s.len(),
        forall|m: int| 0 <= m < k ==> crate::parser::is_digit(s[m]),
    ensures
        crate::parser::digits_value(s.subrange(0, k)) >= 0,
    decreases k,
{
    if k > 0 {
        assert(s.subrange(0, k).drop_last() =~= s.subrange(0, k - 1));
        assert(s.subrange(0, k).last() == s[k - 1]);
        lemma_digits_value_nonneg_from_zero(s, k - 1);
    } else {
        assert(s.subrange(0, 0) =~= Seq::<char>::empty());
    }
}

} // verus!
