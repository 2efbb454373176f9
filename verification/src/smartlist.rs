//! Smart lists: saved task queries read from `.list` files.
//!
//! A list file has a frontmatter between two `---` lines (`name`, `icon`,
//! `order`), then a body of filter conditions. `OR` lines split the body
//! into blocks; a task matches when every condition of some block holds.
//! `sort by` and `group by` lines give the order and grouping of the view.
use vstd::prelude::*;
use vstd::string::StringSliceAdditionalSpecFns;
use vstd::string::StrSliceExecFns;
use vstd::utf8::{encode_utf8, encode_utf8_decode_utf8};
use vstd::string::StringExecFns;
use crate::date::{add_days_can_run, add_days_ok, add_days_to_date, spec_add_days};
use crate::task::{
    copy_tasks, lemma_tag_value_contains, opt_view, find_tag, stored_view, strings_view, tag_value,
    StoredTask, StoredView, Task, TaskView,
};
use crate::text::{
    increasing, insert_sorted_unique, strs, lemma_str_order_equal,
    compare_bytes, string_of_char, flip, lemma_lex_order_equal, lemma_lex_order_flip, lemma_lex_order_trans, compare_str, contains_chars, contains_seq, lowercase, str_order, to_lowercase, Order,
    crlf_to_lf, line_spans, normalize_newlines, spans_ok, spans_view, split_lines, LineSpan,
    chars_of, find_char, first_index, has_prefix, is_lit, lemma_first_index, parse_int,
    parse_int_chars, slice_range, starts_with, string_of, trim, trimmed,
};

verus! {

#[derive(Debug, Clone, Copy, PartialEq, Eq, Structural)]
pub enum DateField {
    Due,
    Scheduled,
    Starting,
    CreationDate,
}

#[derive(Debug, Clone, Copy, PartialEq, Eq, Structural)]
pub enum TextField {
    Project,
    Context,
    Description,
}

#[derive(Debug, Clone, Copy, PartialEq, Eq, Structural)]
pub enum Field {
    Due,
    Scheduled,
    Starting,
    CreationDate,
    Priority,
    Project,
    Context,
    Description,
    Done,
}

#[derive(Debug, Clone, Copy, PartialEq, Eq, Structural)]
pub enum CompareOp {
    Eq,
    Lt,
    Lte,
    Gt,
    Gte,
}

#[derive(Debug, Clone, Copy, PartialEq, Eq, Structural)]
pub enum PriorityOp {
    Eq,
    Above,
    Below,
}

#[derive(Debug, Clone, Copy, PartialEq, Eq, Structural)]
pub enum TextOp {
    Includes,
    Excludes,
}

#[derive(Debug, Clone, Copy, PartialEq, Eq, Structural)]
pub enum Direction {
    Asc,
    Desc,
}

/// One filter condition of a smart list.
#[allow(inconsistent_fields)]
#[derive(Debug, Clone, PartialEq, Eq)]
pub enum Condition {
    DateComparison { field: DateField, op: CompareOp, offset: i32 },
    PriorityComparison { op: PriorityOp, letter: char },
    TextMatch { field: TextField, op: TextOp, text: String },
    Existence { field: Field, present: bool },
    DoneFilter { done: bool },
}

/// A condition with its text as characters.
#[allow(inconsistent_fields)]
pub enum CondSpec {
    DateComparison { field: DateField, op: CompareOp, offset: i32 },
    PriorityComparison { op: PriorityOp, letter: char },
    TextMatch { field: TextField, op: TextOp, text: Seq<char> },
    Existence { field: Field, present: bool },
    DoneFilter { done: bool },
}

impl View for Condition {
    type V = CondSpec;

    open spec fn view(&self) -> CondSpec {
        match self {
            Condition::DateComparison { field, op, offset } => CondSpec::DateComparison {
                field: *field,
                op: *op,
                offset: *offset,
            },
            Condition::PriorityComparison { op, letter } => CondSpec::PriorityComparison {
                op: *op,
                letter: *letter,
            },
            Condition::TextMatch { field, op, text } => CondSpec::TextMatch {
                field: *field,
                op: *op,
                text: text@,
            },
            Condition::Existence { field, present } => CondSpec::Existence {
                field: *field,
                present: *present,
            },
            Condition::DoneFilter { done } => CondSpec::DoneFilter { done: *done },
        }
    }
}

/// The conditions of one block; all of them must hold.
#[derive(Debug, Clone, PartialEq, Eq)]
pub struct FilterBlock {
    pub conditions: Vec<Condition>,
}

#[derive(Debug, Clone, Copy, PartialEq, Eq, Structural)]
pub struct Directive {
    pub field: Field,
    pub direction: Direction,
}

/// A parsed smart list.
#[derive(Debug, Clone, PartialEq, Eq)]
pub struct SmartList {
    pub name: String,
    pub icon: Option<String>,
    pub order: Option<i32>,
    pub source_path: String,
    pub parse_error: Option<String>,
    pub blocks: Vec<FilterBlock>,
    pub sort_directives: Vec<Directive>,
    pub group_directives: Vec<Directive>,
}

pub open spec fn opt_str(o: Option<String>) -> Option<Seq<char>> {
    match o {
        Some(s) => Some(s@),
        None => None,
    }
}

pub open spec fn opt_cond(o: Option<Condition>) -> Option<CondSpec> {
    match o {
        Some(c) => Some(c@),
        None => None,
    }
}

pub open spec fn conds_view(v: Seq<Condition>) -> Seq<CondSpec> {
    v.map_values(|c: Condition| c@)
}

pub open spec fn blocks_view(v: Seq<FilterBlock>) -> Seq<Seq<CondSpec>> {
    v.map_values(|b: FilterBlock| conds_view(b.conditions@))
}

// ── Words ───────────────────────────────────────────────────────────────────

pub open spec fn spec_date_field(s: Seq<char>) -> Option<DateField> {
    if s == "due"@ {
        Some(DateField::Due)
    } else if s == "scheduled"@ {
        Some(DateField::Scheduled)
    } else if s == "starting"@ {
        Some(DateField::Starting)
    } else if s == "creation_date"@ {
        Some(DateField::CreationDate)
    } else {
        None
    }
}

pub open spec fn spec_field(s: Seq<char>) -> Option<Field> {
    if s == "due"@ {
        Some(Field::Due)
    } else if s == "scheduled"@ {
        Some(Field::Scheduled)
    } else if s == "starting"@ {
        Some(Field::Starting)
    } else if s == "creation_date"@ {
        Some(Field::CreationDate)
    } else if s == "priority"@ {
        Some(Field::Priority)
    } else if s == "project"@ {
        Some(Field::Project)
    } else if s == "context"@ {
        Some(Field::Context)
    } else if s == "description"@ {
        Some(Field::Description)
    } else if s == "done"@ {
        Some(Field::Done)
    } else {
        None
    }
}

pub open spec fn spec_text_field(s: Seq<char>) -> Option<TextField> {
    if s == "project"@ {
        Some(TextField::Project)
    } else if s == "context"@ {
        Some(TextField::Context)
    } else if s == "description"@ {
        Some(TextField::Description)
    } else {
        None
    }
}

pub open spec fn spec_compare_op(s: Seq<char>) -> Option<CompareOp> {
    if s == "="@ {
        Some(CompareOp::Eq)
    } else if s == "<"@ {
        Some(CompareOp::Lt)
    } else if s == "<="@ {
        Some(CompareOp::Lte)
    } else if s == ">"@ {
        Some(CompareOp::Gt)
    } else if s == ">="@ {
        Some(CompareOp::Gte)
    } else {
        None
    }
}

pub open spec fn spec_priority_op(s: Seq<char>) -> Option<PriorityOp> {
    if s == "="@ {
        Some(PriorityOp::Eq)
    } else if s == "above"@ {
        Some(PriorityOp::Above)
    } else if s == "below"@ {
        Some(PriorityOp::Below)
    } else {
        None
    }
}

pub open spec fn spec_text_op(s: Seq<char>) -> Option<TextOp> {
    if s == "includes"@ {
        Some(TextOp::Includes)
    } else if s == "excludes"@ {
        Some(TextOp::Excludes)
    } else {
        None
    }
}

fn parse_date_field(s: &[char]) -> (r: Option<DateField>)
    ensures
        r == spec_date_field(s@),
{
    if is_lit(s, "due") {
        Some(DateField::Due)
    } else if is_lit(s, "scheduled") {
        Some(DateField::Scheduled)
    } else if is_lit(s, "starting") {
        Some(DateField::Starting)
    } else if is_lit(s, "creation_date") {
        Some(DateField::CreationDate)
    } else {
        None
    }
}

fn parse_field(s: &[char]) -> (r: Option<Field>)
    ensures
        r == spec_field(s@),
{
    if is_lit(s, "due") {
        Some(Field::Due)
    } else if is_lit(s, "scheduled") {
        Some(Field::Scheduled)
    } else if is_lit(s, "starting") {
        Some(Field::Starting)
    } else if is_lit(s, "creation_date") {
        Some(Field::CreationDate)
    } else if is_lit(s, "priority") {
        Some(Field::Priority)
    } else if is_lit(s, "project") {
        Some(Field::Project)
    } else if is_lit(s, "context") {
        Some(Field::Context)
    } else if is_lit(s, "description") {
        Some(Field::Description)
    } else if is_lit(s, "done") {
        Some(Field::Done)
    } else {
        None
    }
}

fn parse_text_field(s: &[char]) -> (r: Option<TextField>)
    ensures
        r == spec_text_field(s@),
{
    if is_lit(s, "project") {
        Some(TextField::Project)
    } else if is_lit(s, "context") {
        Some(TextField::Context)
    } else if is_lit(s, "description") {
        Some(TextField::Description)
    } else {
        None
    }
}

fn parse_compare_op(s: &[char]) -> (r: Option<CompareOp>)
    ensures
        r == spec_compare_op(s@),
{
    if is_lit(s, "=") {
        Some(CompareOp::Eq)
    } else if is_lit(s, "<") {
        Some(CompareOp::Lt)
    } else if is_lit(s, "<=") {
        Some(CompareOp::Lte)
    } else if is_lit(s, ">") {
        Some(CompareOp::Gt)
    } else if is_lit(s, ">=") {
        Some(CompareOp::Gte)
    } else {
        None
    }
}

fn parse_priority_op(s: &[char]) -> (r: Option<PriorityOp>)
    ensures
        r == spec_priority_op(s@),
{
    if is_lit(s, "=") {
        Some(PriorityOp::Eq)
    } else if is_lit(s, "above") {
        Some(PriorityOp::Above)
    } else if is_lit(s, "below") {
        Some(PriorityOp::Below)
    } else {
        None
    }
}

fn parse_text_op(s: &[char]) -> (r: Option<TextOp>)
    ensures
        r == spec_text_op(s@),
{
    if is_lit(s, "includes") {
        Some(TextOp::Includes)
    } else if is_lit(s, "excludes") {
        Some(TextOp::Excludes)
    } else {
        None
    }
}

// ── Date offsets ──────────────────────────────────────────────────────────

/// `str::parse::<i32>`.
pub open spec fn spec_parse_i32(s: Seq<char>) -> Option<i32> {
    match parse_int(s, true, -0x8000_0000, 0x7fff_ffff) {
        Some(v) => Some(v as i32),
        None => None,
    }
}

/// After `"today"`, trimmed: the offset's sign and its trimmed number.
pub open spec fn offset_rest(value: Seq<char>) -> Seq<char> {
    trim(trim(value).skip(5))
}

/// Whether the value of a comparison negates `i32::MIN` (`today - -2147483648`),
/// which overflows.
pub open spec fn offset_overflows(value: Seq<char>) -> bool {
    let v = trim(value);
    let rest = offset_rest(value);
    &&& v != "today"@
    &&& starts_with(v, "today"@)
    &&& rest.len() > 0
    &&& rest[0] == '-'
    &&& spec_parse_i32(trim(rest.drop_first())) == Some(i32::MIN)
}

/// The day offset written as `today`, `today + N` or `today - N`.
pub open spec fn spec_date_offset(value: Seq<char>) -> Option<i32> {
    let v = trim(value);
    let rest = offset_rest(value);
    if v == "today"@ {
        Some(0)
    } else if !starts_with(v, "today"@) {
        None
    } else if rest.len() == 0 {
        Some(0)
    } else if rest[0] == '+' {
        spec_parse_i32(trim(rest.drop_first()))
    } else if rest[0] == '-' {
        match spec_parse_i32(trim(rest.drop_first())) {
            Some(n) => Some((-n) as i32),
            None => None,
        }
    } else {
        None
    }
}

fn parse_i32(s: &[char]) -> (r: Option<i32>)
    ensures
        r == spec_parse_i32(s@),
{
    match parse_int_chars(s, true, -0x8000_0000, 0x7fff_ffff) {
        Some(v) => Some(v as i32),
        None => None,
    }
}

fn parse_date_offset(value: &[char]) -> (r: Option<i32>)
    requires
        !offset_overflows(value@),
    ensures
        r == spec_date_offset(value@),
{
    let v = trimmed(value);
    if is_lit(v, "today") {
        return Some(0);
    }
    if !has_prefix(v, "today") {
        return None;
    }
    proof {
        reveal_strlit("today");
    }
    let rest = trimmed(slice_range(v, 5, v.len()));
    assert(rest@ == offset_rest(value@)) by {
        assert(v@.subrange(5, v@.len() as int) =~= trim(value@).skip(5));
    }
    if rest.len() == 0 {
        return Some(0);
    }
    let sign = rest[0];
    let num = trimmed(slice_range(rest, 1, rest.len()));
    assert(rest@.subrange(1, rest@.len() as int) =~= rest@.drop_first());
    if sign == '+' {
        parse_i32(num)
    } else if sign == '-' {
        match parse_i32(num) {
            Some(n) => Some(-n),
            None => None,
        }
    } else {
        None
    }
}

// ── Conditions ─────────────────────────────────────────────────────────────

/// `splitn(3, ' ')` when it yields three parts.
pub open spec fn split3(t: Seq<char>) -> Option<(Seq<char>, Seq<char>, Seq<char>)> {
    let i = first_index(t, ' ');
    let r = t.skip(i + 1);
    let j = first_index(r, ' ');
    if i >= t.len() || j >= r.len() {
        None
    } else {
        Some((t.take(i), r.take(j), r.skip(j + 1)))
    }
}

/// Whether the trimmed value is a single capital letter `A`..`Z`.
pub open spec fn priority_letter(value: Seq<char>) -> Option<char> {
    let l = trim(value);
    if l.len() == 1 && 'A' <= l[0] && l[0] <= 'Z' {
        Some(l[0])
    } else {
        None
    }
}

/// The condition written on the (trimmed) line `t`, if any.
pub open spec fn spec_parse_condition(t: Seq<char>) -> Option<CondSpec> {
    if t == "done"@ {
        Some(CondSpec::DoneFilter { done: true })
    } else if t == "not done"@ {
        Some(CondSpec::DoneFilter { done: false })
    } else if starts_with(t, "has "@) {
        match spec_field(trim(t.skip(4))) {
            Some(f) => Some(CondSpec::Existence { field: f, present: true }),
            None => None,
        }
    } else if starts_with(t, "no "@) {
        match spec_field(trim(t.skip(3))) {
            Some(f) => Some(CondSpec::Existence { field: f, present: false }),
            None => None,
        }
    } else {
        match split3(t) {
            None => None,
            Some(parts) => {
                let (p0, p1, p2) = parts;
                if spec_date_field(p0) is Some && spec_compare_op(p1) is Some && spec_date_offset(
                    p2,
                ) is Some {
                    Some(
                        CondSpec::DateComparison {
                            field: spec_date_field(p0)->0,
                            op: spec_compare_op(p1)->0,
                            offset: spec_date_offset(p2)->0,
                        },
                    )
                } else if p0 == "priority"@ && spec_priority_op(p1) is Some && priority_letter(
                    p2,
                ) is Some {
                    Some(
                        CondSpec::PriorityComparison {
                            op: spec_priority_op(p1)->0,
                            letter: priority_letter(p2)->0,
                        },
                    )
                } else if spec_text_field(p0) is Some && spec_text_op(p1) is Some {
                    Some(
                        CondSpec::TextMatch {
                            field: spec_text_field(p0)->0,
                            op: spec_text_op(p1)->0,
                            text: p2,
                        },
                    )
                } else {
                    None
                }
            },
        }
    }
}

/// Whether reading the (trimmed) line `t` as a condition overflows.
pub open spec fn condition_overflows(t: Seq<char>) -> bool {
    &&& t != "done"@
    &&& t != "not done"@
    &&& !starts_with(t, "has "@)
    &&& !starts_with(t, "no "@)
    &&& split3(t) is Some
    &&& offset_overflows((split3(t)->0).2)
}

fn parse_condition(t: &[char]) -> (r: Option<Condition>)
    requires
        !condition_overflows(t@),
    ensures
        opt_cond(r) == spec_parse_condition(t@),
{
    if is_lit(t, "done") {
        return Some(Condition::DoneFilter { done: true });
    }
    if is_lit(t, "not done") {
        return Some(Condition::DoneFilter { done: false });
    }
    if has_prefix(t, "has ") {
        proof {
            reveal_strlit("has ");
        }
        let rest = trimmed(slice_range(t, 4, t.len()));
        assert(t@.subrange(4, t@.len() as int) =~= t@.skip(4));
        return match parse_field(rest) {
            Some(field) => Some(Condition::Existence { field, present: true }),
            None => None,
        };
    }
    if has_prefix(t, "no ") {
        proof {
            reveal_strlit("no ");
        }
        let rest = trimmed(slice_range(t, 3, t.len()));
        assert(t@.subrange(3, t@.len() as int) =~= t@.skip(3));
        return match parse_field(rest) {
            Some(field) => Some(Condition::Existence { field, present: false }),
            None => None,
        };
    }
    let i = find_char(t, ' ');
    if i >= t.len() {
        return None;
    }
    let r = slice_range(t, i + 1, t.len());
    assert(r@ =~= t@.skip(i + 1));
    let j = find_char(r, ' ');
    if j >= r.len() {
        return None;
    }
    let p0 = slice_range(t, 0, i);
    let p1 = slice_range(r, 0, j);
    let p2 = slice_range(r, j + 1, r.len());
    assert(p0@ =~= t@.take(i as int));
    assert(p1@ =~= r@.take(j as int));
    assert(p2@ =~= r@.skip(j + 1));
    let date_field = parse_date_field(p0);
    let compare_op = parse_compare_op(p1);
    let offset = parse_date_offset(p2);
    if let (Some(field), Some(op), Some(offset)) = (date_field, compare_op, offset) {
        return Some(Condition::DateComparison { field, op, offset });
    }
    if is_lit(p0, "priority") {
        let priority_op = parse_priority_op(p1);
        let letter_str = trimmed(p2);
        if let Some(op) = priority_op {
            if letter_str.len() == 1 && 'A' <= letter_str[0] && letter_str[0] <= 'Z' {
                return Some(Condition::PriorityComparison { op, letter: letter_str[0] });
            }
        }
    }
    let text_field = parse_text_field(p0);
    let text_op = parse_text_op(p1);
    if let (Some(field), Some(op)) = (text_field, text_op) {
        return Some(Condition::TextMatch { field, op, text: string_of(p2) });
    }
    None
}

// ── Directives ─────────────────────────────────────────────────────────────

/// The directive after `sort by ` or `group by `: a field, then optionally a
/// space and a direction (`desc`; anything else is ascending).
pub open spec fn spec_directive_body(is_sort: bool, rest: Seq<char>) -> Option<(bool, Directive)> {
    let i = first_index(rest, ' ');
    let direction = if i < rest.len() && trim(rest.skip(i + 1)) == "desc"@ {
        Direction::Desc
    } else {
        Direction::Asc
    };
    match spec_field(rest.take(i)) {
        Some(f) => Some((is_sort, Directive { field: f, direction })),
        None => None,
    }
}

/// The directive on the (trimmed) line `t`: `(true, d)` for `sort by`,
/// `(false, d)` for `group by`.
pub open spec fn spec_parse_directive(t: Seq<char>) -> Option<(bool, Directive)> {
    if starts_with(t, "sort by "@) {
        spec_directive_body(true, t.skip(8))
    } else if starts_with(t, "group by "@) {
        spec_directive_body(false, t.skip(9))
    } else {
        None
    }
}

fn parse_directive_body(is_sort: bool, rest: &[char]) -> (r: Option<(bool, Directive)>)
    ensures
        r == spec_directive_body(is_sort, rest@),
{
    let i = find_char(rest, ' ');
    proof {
        lemma_first_index(rest@, ' ');
    }
    let mut direction = Direction::Asc;
    if i < rest.len() {
        let after = trimmed(slice_range(rest, i + 1, rest.len()));
        assert(rest@.subrange(i + 1, rest@.len() as int) =~= rest@.skip(i + 1));
        if is_lit(after, "desc") {
            direction = Direction::Desc;
        }
    }
    let field_str = slice_range(rest, 0, i);
    assert(field_str@ =~= rest@.take(i as int));
    match parse_field(field_str) {
        Some(field) => Some((is_sort, Directive { field, direction })),
        None => None,
    }
}

fn parse_directive(t: &[char]) -> (r: Option<(bool, Directive)>)
    ensures
        r == spec_parse_directive(t@),
{
    if has_prefix(t, "sort by ") {
        proof {
            reveal_strlit("sort by ");
        }
        let rest = slice_range(t, 8, t.len());
        assert(rest@ =~= t@.skip(8));
        parse_directive_body(true, rest)
    } else if has_prefix(t, "group by ") {
        proof {
            reveal_strlit("group by ");
        }
        let rest = slice_range(t, 9, t.len());
        assert(rest@ =~= t@.skip(9));
        parse_directive_body(false, rest)
    } else {
        None
    }
}

// ── Whole files ───────────────────────────────────────────────────────────────

/// The lines of a list file, after `"\r\n"` is normalised to `"\n"`.
pub open spec fn spec_lines(content: Seq<char>) -> Seq<Seq<char>> {
    split_lines(crlf_to_lf(content))
}

pub open spec fn is_dash_line(l: Seq<char>) -> bool {
    trim(l) == "---"@
}

/// The index of the first `---` line at or after `i`, or `ls.len()`.
pub open spec fn dash_from(ls: Seq<Seq<char>>, i: int) -> int
    decreases ls.len() - i,
{
    if i < 0 || i >= ls.len() {
        ls.len() as int
    } else if is_dash_line(ls[i]) {
        i
    } else {
        dash_from(ls, i + 1)
    }
}

pub proof fn lemma_dash_from_bounds(ls: Seq<Seq<char>>, i: int)
    requires
        0 <= i <= ls.len(),
    ensures
        i <= dash_from(ls, i) <= ls.len(),
    decreases ls.len() - i,
{
    if i < ls.len() && !is_dash_line(ls[i]) {
        lemma_dash_from_bounds(ls, i + 1);
    }
}

pub open spec fn first_dash(ls: Seq<Seq<char>>) -> int {
    dash_from(ls, 0)
}

pub open spec fn second_dash(ls: Seq<Seq<char>>) -> int {
    dash_from(ls, first_dash(ls) + 1)
}

/// Whether the file has a frontmatter: two `---` lines.
pub open spec fn has_frontmatter(ls: Seq<Seq<char>>) -> bool {
    second_dash(ls) < ls.len()
}

/// The lines between the two `---` lines.
pub open spec fn frontmatter_lines(ls: Seq<Seq<char>>) -> Seq<Seq<char>> {
    ls.subrange(first_dash(ls) + 1, second_dash(ls))
}

/// The lines after the frontmatter, or all lines when there is none.
pub open spec fn body_lines(ls: Seq<Seq<char>>) -> Seq<Seq<char>> {
    if has_frontmatter(ls) {
        ls.skip(second_dash(ls) + 1)
    } else {
        ls
    }
}

/// The frontmatter values read so far: name, icon, order.
pub type FrontMatter = (Option<Seq<char>>, Option<Seq<char>>, Option<i32>);

/// Reads one frontmatter line `key: value`; a later line overrides an
/// earlier one with the same key, unknown keys are ignored.
pub open spec fn fm_step(st: FrontMatter, line: Seq<char>) -> FrontMatter {
    let p = first_index(line, ':');
    let key = trim(line.take(p));
    let value = trim(line.skip(p + 1));
    if p >= line.len() {
        st
    } else if key == "name"@ {
        (Some(value), st.1, st.2)
    } else if key == "icon"@ {
        (st.0, Some(value), st.2)
    } else if key == "order"@ {
        (st.0, st.1, spec_parse_i32(value))
    } else {
        st
    }
}

pub open spec fn fm_fold(lines: Seq<Seq<char>>) -> FrontMatter
    decreases lines.len(),
{
    if lines.len() == 0 {
        (None, None, None)
    } else {
        fm_step(fm_fold(lines.drop_last()), lines.last())
    }
}

pub open spec fn is_or_line(l: Seq<char>) -> bool {
    trim(l) == "OR"@
}

/// Blank lines and `#` comments.
pub open spec fn is_skipped(t: Seq<char>) -> bool {
    t.len() == 0 || t[0] == '#'
}

pub open spec fn has_directive_prefix(t: Seq<char>) -> bool {
    starts_with(t, "sort by "@) || starts_with(t, "group by "@)
}

/// The directive written on a body line, if any.
pub open spec fn line_directive(l: Seq<char>) -> Option<(bool, Directive)> {
    let t = trim(l);
    if is_skipped(t) || !has_directive_prefix(t) {
        None
    } else {
        spec_parse_directive(t)
    }
}

/// The condition written on a body line, if any.
pub open spec fn line_condition(l: Seq<char>) -> Option<CondSpec> {
    let t = trim(l);
    if is_or_line(l) || is_skipped(t) || has_directive_prefix(t) {
        None
    } else {
        spec_parse_condition(t)
    }
}

/// Whether reading the body line `l` overflows.
pub open spec fn line_overflows(l: Seq<char>) -> bool {
    let t = trim(l);
    !is_or_line(l) && !is_skipped(t) && !has_directive_prefix(t) && condition_overflows(t)
}

/// The `sort by` (`is_sort`) or `group by` directives of the lines, in order.
pub open spec fn directives_of(lines: Seq<Seq<char>>, is_sort: bool) -> Seq<Directive>
    decreases lines.len(),
{
    if lines.len() == 0 {
        seq![]
    } else {
        let prev = directives_of(lines.drop_last(), is_sort);
        match line_directive(lines.last()) {
            Some(d) => if d.0 == is_sort {
                prev.push(d.1)
            } else {
                prev
            },
            None => prev,
        }
    }
}

/// `done` with the block `cur` appended, unless it has no condition.
pub open spec fn close_block(done: Seq<Seq<CondSpec>>, cur: Seq<CondSpec>) -> Seq<Seq<CondSpec>> {
    if cur.len() > 0 {
        done.push(cur)
    } else {
        done
    }
}

/// The completed blocks and the conditions of the open block, after the lines.
pub open spec fn block_fold(lines: Seq<Seq<char>>) -> (Seq<Seq<CondSpec>>, Seq<CondSpec>)
    decreases lines.len(),
{
    if lines.len() == 0 {
        (seq![], seq![])
    } else {
        let st = block_fold(lines.drop_last());
        let l = lines.last();
        if is_or_line(l) {
            (close_block(st.0, st.1), seq![])
        } else {
            match line_condition(l) {
                Some(c) => (st.0, st.1.push(c)),
                None => st,
            }
        }
    }
}

/// The body split at `OR` lines; each part gives the block of its
/// conditions, and parts without conditions give none.
pub open spec fn body_blocks(lines: Seq<Seq<char>>) -> Seq<Seq<CondSpec>> {
    close_block(block_fold(lines).0, block_fold(lines).1)
}

/// Whether reading the file overflows (some body line negates `i32::MIN`).
pub open spec fn list_overflows(content: Seq<char>) -> bool {
    let body = body_lines(spec_lines(content));
    exists|k: int| 0 <= k < body.len() && line_overflows(#[trigger] body[k])
}

/// The name a list gets from its file: the frontmatter `name`, else the
/// default name.
pub open spec fn spec_list_name(ls: Seq<Seq<char>>, default_name: Seq<char>) -> Seq<char> {
    if has_frontmatter(ls) && fm_fold(frontmatter_lines(ls)).0 is Some {
        fm_fold(frontmatter_lines(ls)).0->0
    } else {
        default_name
    }
}

/// What reading `content` gives, apart from the name.
pub open spec fn parsed_as(r: SmartList, content: Seq<char>, source_path: Seq<char>) -> bool {
    let ls = spec_lines(content);
    let fm = fm_fold(frontmatter_lines(ls));
    &&& r.source_path@ == source_path
    &&& (r.parse_error is Some) == !has_frontmatter(ls)
    &&& (r.parse_error matches Some(e) ==> e@ == "missing frontmatter delimiters"@)
    &&& opt_str(r.icon) == (if has_frontmatter(ls) {
        fm.1
    } else {
        None
    })
    &&& r.order == (if has_frontmatter(ls) {
        fm.2
    } else {
        None
    })
    &&& blocks_view(r.blocks@) == body_blocks(body_lines(ls))
    &&& r.sort_directives@ == directives_of(body_lines(ls), true)
    &&& r.group_directives@ == directives_of(body_lines(ls), false)
}

fn line_at<'a>(text: &'a [char], spans: &Vec<LineSpan>, k: usize) -> (r: &'a [char])
    requires
        spans_ok(text@, spans@),
        k < spans@.len(),
    ensures
        r@ == spans_view(text@, spans@)[k as int],
{
    slice_range(text, spans[k].start, spans[k].end)
}

fn find_dash(text: &[char], spans: &Vec<LineSpan>, from: usize) -> (r: usize)
    requires
        spans_ok(text@, spans@),
        from <= spans@.len(),
    ensures
        r as int == dash_from(spans_view(text@, spans@), from as int),
{
    let ghost ls = spans_view(text@, spans@);
    let n = spans.len();
    let mut k = from;
    while k < n
        invariant
            from <= k <= n,
            n == spans@.len(),
            ls.len() == n,
            spans_ok(text@, spans@),
            ls == spans_view(text@, spans@),
            dash_from(ls, from as int) == dash_from(ls, k as int),
        decreases n - k,
    {
        let line = line_at(text, spans, k);
        let t = trimmed(line);
        if is_lit(t, "---") {
            return k;
        }
        k = k + 1;
    }
    assert(dash_from(ls, k as int) == ls.len());
    k
}

/// The stem of the path `path`: its last component without the extension,
/// as `Path::file_stem` gives it, when it has one.
pub uninterp spec fn path_stem(path: Seq<char>) -> Option<Seq<char>>;

/// The stem of `path` (`Path::file_stem`, kept when it is valid UTF-8). The
/// result is named: it is a function of the path alone.
#[verifier::external_body]
fn file_stem(path: &str) -> (r: Option<String>)
    ensures
        match r {
            Some(s) => path_stem(path@) == Some(s@),
            None => path_stem(path@) is None,
        },
{
    std::path::Path::new(path).file_stem().and_then(|stem| stem.to_str()).map(String::from)
}

/// The name a list read from `source_path` gets when its frontmatter gives
/// none: the stem of the path, else nothing.
pub open spec fn default_list_name(source_path: Seq<char>) -> Seq<char> {
    match path_stem(source_path) {
        Some(s) => s,
        None => Seq::<char>::empty(),
    }
}

/// Reads a list file. Its name defaults to the stem of `source_path`.
pub fn parse_list(content: &str, source_path: &str) -> (r: SmartList)
    requires
        !list_overflows(content@),
    ensures
        parsed_as(r, content@, source_path@),
        r.name@ == spec_list_name(spec_lines(content@), default_list_name(source_path@)),
{
    let stem = file_stem(source_path);
    let default_name = match stem {
        Some(s) => s,
        None => String::new(),
    };
    parse_list_with_default_name(content, source_path, default_name.as_str())
}

/// Reads a list file whose name, when its frontmatter gives none, is
/// `default_name`.
pub fn parse_list_with_default_name(content: &str, source_path: &str, default_name: &str) -> (r:
    SmartList)
    requires
        !list_overflows(content@),
    ensures
        parsed_as(r, content@, source_path@),
        r.name@ == spec_list_name(spec_lines(content@), default_name@),
{
    let raw = chars_of(content);
    let text_vec = normalize_newlines(raw.as_slice());
    let text = text_vec.as_slice();
    let spans = line_spans(text);
    let ghost ls = spec_lines(content@);
    assert(ls == spans_view(text@, spans@));
    let n = spans.len();
    let d1 = find_dash(text, &spans, 0);
    let d2 = if d1 < n {
        find_dash(text, &spans, d1 + 1)
    } else {
        n
    };
    let has_fm = d2 < n;
    proof {
        lemma_dash_from_bounds(ls, 0);
        if d1 < n {
            lemma_dash_from_bounds(ls, d1 + 1);
        }
    }
    let mut name = String::new();
    let mut name_set = false;
    let mut icon: Option<String> = None;
    let mut order: Option<i32> = None;
    let mut parse_error: Option<String> = None;
    let body_start: usize;
    if has_fm {
        let mut k = d1 + 1;
        assert(ls.subrange(d1 + 1, d1 + 1) =~= Seq::<Seq<char>>::empty());
        while k < d2
            invariant
                d1 + 1 <= k <= d2 < n,
                n == spans@.len(),
                spans_ok(text@, spans@),
                ls == spans_view(text@, spans@),
                (if name_set {
                    Some(name@)
                } else {
                    None
                }, opt_str(icon), order) == fm_fold(ls.subrange(d1 + 1, k as int)),
            decreases d2 - k,
        {
            let line = line_at(text, &spans, k);
            assert(ls.subrange(d1 + 1, k + 1).drop_last() =~= ls.subrange(d1 + 1, k as int));
            let p = find_char(line, ':');
            if p < line.len() {
                let key = trimmed(slice_range(line, 0, p));
                let value = trimmed(slice_range(line, p + 1, line.len()));
                assert(line@.subrange(0, p as int) =~= line@.take(p as int));
                assert(line@.subrange(p + 1, line@.len() as int) =~= line@.skip(p + 1));
                if is_lit(key, "name") {
                    name = string_of(value);
                    name_set = true;
                } else if is_lit(key, "icon") {
                    icon = Some(string_of(value));
                } else if is_lit(key, "order") {
                    order = parse_i32(value);
                }
            }
            k = k + 1;
        }
        body_start = d2 + 1;
    } else {
        parse_error = Some(string_of(chars_of("missing frontmatter delimiters").as_slice()));
        body_start = 0;
    }
    if !name_set {
        name = string_of(chars_of(default_name).as_slice());
    }
    let ghost body = body_lines(ls);
    assert(body == ls.subrange(body_start as int, n as int));
    let mut blocks: Vec<FilterBlock> = Vec::new();
    let mut current: Vec<Condition> = Vec::new();
    let mut sorts: Vec<Directive> = Vec::new();
    let mut groups: Vec<Directive> = Vec::new();
    let mut k = body_start;
    assert(ls.subrange(body_start as int, body_start as int) =~= Seq::<Seq<char>>::empty());
    while k < n
        invariant
            body_start <= k <= n,
            n == spans@.len(),
            spans_ok(text@, spans@),
            ls == spans_view(text@, spans@),
            body == ls.subrange(body_start as int, n as int),
            !list_overflows(content@),
            body == body_lines(spec_lines(content@)),
            blocks_view(blocks@) == block_fold(ls.subrange(body_start as int, k as int)).0,
            conds_view(current@) == block_fold(ls.subrange(body_start as int, k as int)).1,
            sorts@ == directives_of(ls.subrange(body_start as int, k as int), true),
            groups@ == directives_of(ls.subrange(body_start as int, k as int), false),
        decreases n - k,
    {
        let line = line_at(text, &spans, k);
        let ghost prefix = ls.subrange(body_start as int, k as int);
        assert(ls.subrange(body_start as int, k + 1).drop_last() =~= prefix);
        assert(ls.subrange(body_start as int, k + 1).last() == line@);
        assert(body[k - body_start] == line@);
        let t = trimmed(line);
        if is_lit(t, "OR") {
            proof {
                reveal_strlit("OR");
                reveal_strlit("sort by ");
                reveal_strlit("group by ");
            }
            if current.len() > 0 {
                let block = FilterBlock { conditions: current };
                blocks.push(block);
                assert(blocks_view(blocks@) =~= close_block(
                    block_fold(prefix).0,
                    block_fold(prefix).1,
                ));
            }
            current = Vec::new();
            assert(conds_view(current@) =~= Seq::<CondSpec>::empty());
        } else if t.len() == 0 || t[0] == '#' {
        } else if has_prefix(t, "sort by ") || has_prefix(t, "group by ") {
            match parse_directive(t) {
                Some(d) => {
                    if d.0 {
                        sorts.push(d.1);
                    } else {
                        groups.push(d.1);
                    }
                },
                None => {},
            }
        } else {
            assert(!line_overflows(body[k - body_start]));
            match parse_condition(t) {
                Some(c) => {
                    current.push(c);
                    assert(conds_view(current@) =~= block_fold(prefix).1.push(
                        spec_parse_condition(t@)->0,
                    ));
                },
                None => {},
            }
        }
        k = k + 1;
    }
    assert(ls.subrange(body_start as int, n as int) == body);
    if current.len() > 0 {
        let block = FilterBlock { conditions: current };
        blocks.push(block);
        assert(blocks_view(blocks@) =~= close_block(block_fold(body).0, block_fold(body).1));
    }
    SmartList {
        name,
        icon,
        order,
        source_path: string_of(chars_of(source_path).as_slice()),
        parse_error,
        blocks,
        sort_directives: sorts,
        group_directives: groups,
    }
}

fn offset_overflows_at(value: &[char]) -> (r: bool)
    ensures
        r == offset_overflows(value@),
{
    let v = trimmed(value);
    if is_lit(v, "today") || !has_prefix(v, "today") {
        return false;
    }
    proof {
        reveal_strlit("today");
    }
    let rest = trimmed(slice_range(v, 5, v.len()));
    assert(v@.subrange(5, v@.len() as int) =~= trim(value@).skip(5));
    if rest.len() == 0 || rest[0] != '-' {
        return false;
    }
    let num = trimmed(slice_range(rest, 1, rest.len()));
    assert(rest@.subrange(1, rest@.len() as int) =~= rest@.drop_first());
    match parse_i32(num) {
        Some(x) => x == i32::MIN,
        None => false,
    }
}

fn condition_overflows_at(t: &[char]) -> (r: bool)
    ensures
        r == condition_overflows(t@),
{
    if is_lit(t, "done") || is_lit(t, "not done") || has_prefix(t, "has ") || has_prefix(
        t,
        "no ",
    ) {
        return false;
    }
    let i = find_char(t, ' ');
    if i >= t.len() {
        return false;
    }
    let r = slice_range(t, i + 1, t.len());
    assert(r@ =~= t@.skip(i + 1));
    let j = find_char(r, ' ');
    if j >= r.len() {
        return false;
    }
    let p2 = slice_range(r, j + 1, r.len());
    assert(p2@ =~= r@.skip(j + 1));
    offset_overflows_at(p2)
}

/// Whether reading `content` as a list file overflows: some body line
/// compares a date with `today - -2147483648`.
pub fn list_would_overflow(content: &str) -> (r: bool)
    ensures
        r == list_overflows(content@),
{
    let raw = chars_of(content);
    let text_vec = normalize_newlines(raw.as_slice());
    let text = text_vec.as_slice();
    let spans = line_spans(text);
    let ghost ls = spec_lines(content@);
    assert(ls == spans_view(text@, spans@));
    let n = spans.len();
    let d1 = find_dash(text, &spans, 0);
    let d2 = if d1 < n {
        find_dash(text, &spans, d1 + 1)
    } else {
        n
    };
    proof {
        lemma_dash_from_bounds(ls, 0);
        if d1 < n {
            lemma_dash_from_bounds(ls, d1 + 1);
        }
    }
    let body_start: usize = if d2 < n {
        d2 + 1
    } else {
        0
    };
    let ghost body = body_lines(ls);
    assert(body =~= ls.subrange(body_start as int, n as int));
    let mut k = body_start;
    while k < n
        invariant
            body_start <= k <= n,
            n == spans@.len(),
            spans_ok(text@, spans@),
            ls == spans_view(text@, spans@),
            body == body_lines(spec_lines(content@)),
            body == ls.subrange(body_start as int, n as int),
            forall|m: int| 0 <= m < k - body_start ==> !line_overflows(#[trigger] body[m]),
        decreases n - k,
    {
        let line = line_at(text, &spans, k);
        assert(body[k - body_start] == line@);
        let t = trimmed(line);
        if !is_lit(t, "OR") && !(t.len() == 0 || t[0] == '#') && !(has_prefix(t, "sort by ")
            || has_prefix(t, "group by ")) && condition_overflows_at(t) {
            assert(line_overflows(body[k - body_start]));
            return true;
        }
        k = k + 1;
    }
    false
}

// ── Evaluating conditions on tasks ─────────────────────────────────────────────

/// The date a date field of the task holds, if any.
pub open spec fn date_value(t: TaskView, f: DateField) -> Option<Seq<char>> {
    match f {
        DateField::Due => tag_value(t.tags, "due"@),
        DateField::Scheduled => tag_value(t.tags, "scheduled"@),
        DateField::Starting => tag_value(t.tags, "starting"@),
        DateField::CreationDate => t.creation_date,
    }
}

/// Whether the task has a value for the field.
pub open spec fn has_field(t: TaskView, f: Field) -> bool {
    match f {
        Field::Due => tag_value(t.tags, "due"@) is Some,
        Field::Scheduled => tag_value(t.tags, "scheduled"@) is Some,
        Field::Starting => tag_value(t.tags, "starting"@) is Some,
        Field::CreationDate => t.creation_date is Some,
        Field::Priority => t.priority is Some,
        Field::Project => t.projects.len() > 0,
        Field::Context => t.contexts.len() > 0,
        Field::Description => t.description.len() > 0,
        Field::Done => t.done,
    }
}

/// Whether a comparison outcome satisfies the operator.
pub open spec fn compare_holds(op: CompareOp, o: Order) -> bool {
    match op {
        CompareOp::Eq => o == Order::Equal,
        CompareOp::Lt => o == Order::Less,
        CompareOp::Lte => o != Order::Greater,
        CompareOp::Gt => o == Order::Greater,
        CompareOp::Gte => o != Order::Less,
    }
}

/// Whether some string of `words`, lowercased, contains `needle`.
pub open spec fn any_contains(words: Seq<Seq<char>>, needle: Seq<char>) -> bool {
    exists|i: int| 0 <= i < words.len() && contains_seq(lowercase(#[trigger] words[i]), needle)
}

/// Whether the text field contains `text`, ignoring case.
pub open spec fn text_matches(t: TaskView, f: TextField, text: Seq<char>) -> bool {
    let needle = lowercase(text);
    match f {
        TextField::Project => any_contains(t.projects, needle),
        TextField::Context => any_contains(t.contexts, needle),
        TextField::Description => contains_seq(lowercase(t.description), needle),
    }
}

/// Whether the condition holds for the task on the day `today`.
pub open spec fn condition_holds(c: CondSpec, t: TaskView, today: Seq<char>) -> bool {
    match c {
        CondSpec::DoneFilter { done } => t.done == done,
        CondSpec::Existence { field, present } => has_field(t, field) == present,
        CondSpec::DateComparison { field, op, offset } => match date_value(t, field) {
            None => false,
            Some(d) => compare_holds(
                op,
                str_order(d, spec_add_days(encode_utf8(today), offset as int)),
            ),
        },
        CondSpec::PriorityComparison { op, letter } => match t.priority {
            None => false,
            Some(p) => match op {
                PriorityOp::Eq => p == letter,
                PriorityOp::Above => p < letter,
                PriorityOp::Below => p > letter,
            },
        },
        CondSpec::TextMatch { field, op, text } => match op {
            TextOp::Includes => text_matches(t, field, text),
            TextOp::Excludes => !text_matches(t, field, text),
        },
    }
}

/// Whether checking the condition can run: a date comparison that reaches
/// the date arithmetic needs `today` and the shifted date in range.
pub open spec fn condition_ok(c: CondSpec, t: TaskView, today: Seq<char>) -> bool {
    match c {
        CondSpec::DateComparison { field, op, offset } => date_value(t, field) is Some
            ==> add_days_ok(encode_utf8(today), offset as int),
        _ => true,
    }
}

/// Whether all the conditions hold.
pub open spec fn all_hold(conds: Seq<CondSpec>, t: TaskView, today: Seq<char>) -> bool {
    forall|i: int| 0 <= i < conds.len() ==> condition_holds(#[trigger] conds[i], t, today)
}

/// Whether some block has all its conditions hold.
pub open spec fn some_block_holds(blocks: Seq<Seq<CondSpec>>, t: TaskView, today: Seq<char>) -> bool {
    exists|i: int| 0 <= i < blocks.len() && all_hold(#[trigger] blocks[i], t, today)
}

/// Whether checking the conditions in order, stopping at the first that
/// fails, can run.
pub open spec fn all_ok(conds: Seq<CondSpec>, t: TaskView, today: Seq<char>) -> bool
    decreases conds.len(),
{
    conds.len() == 0 || (condition_ok(conds[0], t, today) && (condition_holds(conds[0], t, today)
        ==> all_ok(conds.drop_first(), t, today)))
}

/// Whether checking the blocks in order, stopping at the first that holds,
/// can run.
pub open spec fn blocks_ok(blocks: Seq<Seq<CondSpec>>, t: TaskView, today: Seq<char>) -> bool
    decreases blocks.len(),
{
    blocks.len() == 0 || (all_ok(blocks[0], t, today) && (!all_hold(blocks[0], t, today)
        ==> blocks_ok(blocks.drop_first(), t, today)))
}

/// Whether some condition of some block looks at whether a task is done.
pub open spec fn has_done_condition(blocks: Seq<Seq<CondSpec>>) -> bool {
    exists|i: int, j: int|
        0 <= i < blocks.len() && 0 <= j < blocks[i].len() && (#[trigger] blocks[i][j]) is DoneFilter
}

/// Whether the list selects the task: a done task only when some
/// condition looks at doneness, and then some block must hold.
pub open spec fn selects(blocks: Seq<Seq<CondSpec>>, t: TaskView, today: Seq<char>) -> bool {
    !(!has_done_condition(blocks) && t.done) && some_block_holds(blocks, t, today)
}

/// Whether evaluating the list on the task can run.
pub open spec fn select_ok(blocks: Seq<Seq<CondSpec>>, t: TaskView, today: Seq<char>) -> bool {
    (!has_done_condition(blocks) && t.done) || blocks_ok(blocks, t, today)
}

/// Whether evaluating the list on each of the tasks can run.
pub open spec fn list_ok(list: SmartList, tasks: Seq<StoredTask>, today: Seq<char>) -> bool {
    list_ok_on(list, stored_view(tasks), today)
}

/// Whether evaluating the list on each of the tasks can run.
pub open spec fn list_ok_on(list: SmartList, tasks: Seq<StoredView>, today: Seq<char>) -> bool {
    let blocks = blocks_view(list.blocks@);
    blocks.len() > 0 ==> forall|i: int|
        0 <= i < tasks.len() ==> select_ok(blocks, (#[trigger] tasks[i]).task, today)
}

/// The tasks that the list selects, in their order.
pub open spec fn selected(list: SmartList, tasks: Seq<StoredView>, today: Seq<char>) -> Seq<StoredView> {
    let blocks = blocks_view(list.blocks@);
    if blocks.len() == 0 {
        seq![]
    } else {
        tasks.filter(|x: StoredView| selects(blocks, x.task, today))
    }
}

fn lowercase_chars(s: &str) -> (r: Vec<char>)
    ensures
        r@ == lowercase(s@),
{
    let l = to_lowercase(s);
    chars_of(l.as_str())
}

fn any_word_contains(words: &Vec<String>, needle: &[char]) -> (r: bool)
    ensures
        r == any_contains(strings_view(words@), needle@),
{
    let ghost ws = strings_view(words@);
    let mut i: usize = 0;
    while i < words.len()
        invariant
            i <= words@.len(),
            ws == strings_view(words@),
            forall|j: int| 0 <= j < i ==> !contains_seq(lowercase(#[trigger] ws[j]), needle@),
        decreases words@.len() - i,
    {
        let w = lowercase_chars(words[i].as_str());
        if contains_chars(w.as_slice(), needle) {
            assert(contains_seq(lowercase(ws[i as int]), needle@));
            return true;
        }
        i = i + 1;
    }
    false
}

fn date_field_value<'a>(task: &'a Task, field: DateField) -> (r: Option<&'a String>)
    ensures
        r is Some == date_value(task@, field) is Some,
        r matches Some(v) ==> Some(v@) == date_value(task@, field),
{
    match field {
        DateField::Due => find_tag(&task.tags, "due"),
        DateField::Scheduled => find_tag(&task.tags, "scheduled"),
        DateField::Starting => find_tag(&task.tags, "starting"),
        DateField::CreationDate => match &task.creation_date {
            Some(d) => Some(d),
            None => None,
        },
    }
}

fn eval_condition(cond: &Condition, task: &Task, today: &str) -> (r: bool)
    requires
        condition_ok(cond@, task@, today@),
    ensures
        r == condition_holds(cond@, task@, today@),
{
    match cond {
        Condition::DoneFilter { done } => task.done == *done,
        Condition::Existence { field, present } => {
            let has = match field {
                Field::Due => find_tag(&task.tags, "due").is_some(),
                Field::Scheduled => find_tag(&task.tags, "scheduled").is_some(),
                Field::Starting => find_tag(&task.tags, "starting").is_some(),
                Field::CreationDate => task.creation_date.is_some(),
                Field::Priority => task.priority.is_some(),
                Field::Project => task.projects.len() > 0,
                Field::Context => task.contexts.len() > 0,
                Field::Description => task.description.as_str().unicode_len() > 0,
                Field::Done => task.done,
            };
            has == *present
        },
        Condition::DateComparison { field, op, offset } => {
            let task_date = match date_field_value(task, *field) {
                Some(d) => d,
                None => return false,
            };
            proof {
                assert(today.spec_bytes() == encode_utf8(today@));
            }
            let target = add_days_to_date(today, *offset);
            let o = compare_str(task_date.as_str(), target.as_str());
            match op {
                CompareOp::Eq => o == Order::Equal,
                CompareOp::Lt => o == Order::Less,
                CompareOp::Lte => o != Order::Greater,
                CompareOp::Gt => o == Order::Greater,
                CompareOp::Gte => o != Order::Less,
            }
        },
        Condition::PriorityComparison { op, letter } => {
            let p = match task.priority {
                Some(p) => p,
                None => return false,
            };
            match op {
                PriorityOp::Eq => p == *letter,
                PriorityOp::Above => p < *letter,
                PriorityOp::Below => p > *letter,
            }
        },
        Condition::TextMatch { field, op, text } => {
            let needle = lowercase_chars(text.as_str());
            let matches = match field {
                TextField::Project => any_word_contains(&task.projects, needle.as_slice()),
                TextField::Context => any_word_contains(&task.contexts, needle.as_slice()),
                TextField::Description => {
                    let d = lowercase_chars(task.description.as_str());
                    contains_chars(d.as_slice(), needle.as_slice())
                },
            };
            match op {
                TextOp::Includes => matches,
                TextOp::Excludes => !matches,
            }
        },
    }
}

fn block_holds(conds: &Vec<Condition>, task: &Task, today: &str) -> (r: bool)
    requires
        all_ok(conds_view(conds@), task@, today@),
    ensures
        r == all_hold(conds_view(conds@), task@, today@),
{
    let ghost cs = conds_view(conds@);
    let mut i: usize = 0;
    assert(cs.skip(0) =~= cs);
    while i < conds.len()
        invariant
            i <= conds@.len(),
            cs == conds_view(conds@),
            all_ok(cs.skip(i as int), task@, today@),
            forall|j: int| 0 <= j < i ==> condition_holds(#[trigger] cs[j], task@, today@),
        decreases conds@.len() - i,
    {
        assert(cs.skip(i as int)[0] == cs[i as int]);
        if !eval_condition(&conds[i], task, today) {
            return false;
        }
        assert(cs.skip(i as int).drop_first() =~= cs.skip(i + 1));
        i = i + 1;
    }
    true
}

fn any_block_holds(blocks: &Vec<FilterBlock>, task: &Task, today: &str) -> (r: bool)
    requires
        blocks_ok(blocks_view(blocks@), task@, today@),
    ensures
        r == some_block_holds(blocks_view(blocks@), task@, today@),
{
    let ghost bs = blocks_view(blocks@);
    let mut i: usize = 0;
    assert(bs.skip(0) =~= bs);
    while i < blocks.len()
        invariant
            i <= blocks@.len(),
            bs == blocks_view(blocks@),
            blocks_ok(bs.skip(i as int), task@, today@),
            forall|j: int| 0 <= j < i ==> !all_hold(#[trigger] bs[j], task@, today@),
        decreases blocks@.len() - i,
    {
        assert(bs.skip(i as int)[0] == bs[i as int]);
        if block_holds(&blocks[i].conditions, task, today) {
            return true;
        }
        assert(bs.skip(i as int).drop_first() =~= bs.skip(i + 1));
        i = i + 1;
    }
    false
}

fn has_done_filter(list: &SmartList) -> (r: bool)
    ensures
        r == has_done_condition(blocks_view(list.blocks@)),
{
    let ghost bs = blocks_view(list.blocks@);
    let mut i: usize = 0;
    while i < list.blocks.len()
        invariant
            i <= list.blocks@.len(),
            bs == blocks_view(list.blocks@),
            forall|a: int, b: int|
                0 <= a < i && 0 <= b < bs[a].len() ==> !((#[trigger] bs[a][b]) is DoneFilter),
        decreases list.blocks@.len() - i,
    {
        let conds = &list.blocks[i].conditions;
        let mut j: usize = 0;
        while j < conds.len()
            invariant
                i < list.blocks@.len(),
                j <= conds@.len(),
                conds == list.blocks@[i as int].conditions,
                bs == blocks_view(list.blocks@),
                forall|b: int| 0 <= b < j ==> !((#[trigger] bs[i as int][b]) is DoneFilter),
            decreases conds@.len() - j,
        {
            if let Condition::DoneFilter { .. } = &conds[j] {
                assert(bs[i as int][j as int] is DoneFilter);
                return true;
            }
            j = j + 1;
        }
        i = i + 1;
    }
    false
}

/// The tasks the list selects on the day `today`, in their order. A list
/// without blocks selects nothing; unless some condition looks at doneness,
/// done tasks are left out.
pub fn filter_only(list: &SmartList, tasks: &[StoredTask], today: &str) -> (r: Vec<StoredTask>)
    requires
        list_ok(*list, tasks@, today@),
    ensures
        stored_view(r@) == selected(*list, stored_view(tasks@), today@),
{
    let ghost bs = blocks_view(list.blocks@);
    let ghost pred = |x: StoredView| selects(bs, x.task, today@);
    let mut out: Vec<StoredTask> = Vec::new();
    if list.blocks.len() == 0 {
        assert(stored_view(out@) =~= Seq::<StoredView>::empty());
        return out;
    }
    let implied_not_done = !has_done_filter(list);
    let mut i: usize = 0;
    while i < tasks.len()
        invariant
            i <= tasks@.len(),
            bs == blocks_view(list.blocks@),
            bs.len() > 0,
            implied_not_done == !has_done_condition(bs),
            pred == (|x: StoredView| selects(bs, x.task, today@)),
            list_ok(*list, tasks@, today@),
            stored_view(out@) == stored_view(tasks@.take(i as int)).filter(pred),
        decreases tasks@.len() - i,
    {
        let st = &tasks[i];
        assert(stored_view(tasks@.take(i + 1)) =~= stored_view(tasks@.take(i as int)).push(st@));
        proof {
            stored_view(tasks@.take(i as int)).lemma_filter_push(st@, pred);
        }
        assert(stored_view(tasks@)[i as int] == tasks@[i as int]@);
        assert(select_ok(bs, tasks@[i as int]@.task, today@));
        if implied_not_done && st.task.done {
        } else if any_block_holds(&list.blocks, &st.task, today) {
            out.push(st.duplicate());
            assert(stored_view(out@) =~= stored_view(tasks@.take(i as int)).filter(pred).push(st@));
        }
        i = i + 1;
    }
    assert(tasks@.take(tasks@.len() as int) =~= tasks@);
    out
}

// ── Ordering tasks ─────────────────────────────────────────────────────────────

/// The value a task is ordered by for a field, if it has one.
pub open spec fn sort_key(t: TaskView, f: Field) -> Option<Seq<char>> {
    match f {
        Field::Due => tag_value(t.tags, "due"@),
        Field::Scheduled => tag_value(t.tags, "scheduled"@),
        Field::Starting => tag_value(t.tags, "starting"@),
        Field::CreationDate => t.creation_date,
        Field::Priority => match t.priority {
            Some(c) => Some(seq![c]),
            None => None,
        },
        Field::Project => if t.projects.len() > 0 {
            Some(t.projects[0])
        } else {
            None
        },
        Field::Context => if t.contexts.len() > 0 {
            Some(t.contexts[0])
        } else {
            None
        },
        Field::Description => Some(t.description),
        Field::Done => Some(
            if t.done {
                "1"@
            } else {
                "0"@
            },
        ),
    }
}

/// Keys order as strings do; a task with a value comes before one without.
pub open spec fn key_order(a: Option<Seq<char>>, b: Option<Seq<char>>) -> Order {
    match (a, b) {
        (Some(x), Some(y)) => str_order(x, y),
        (Some(_), None) => Order::Less,
        (None, Some(_)) => Order::Greater,
        (None, None) => Order::Equal,
    }
}

pub open spec fn directed(o: Order, d: Direction) -> Order {
    match d {
        Direction::Asc => o,
        Direction::Desc => flip(o),
    }
}

/// The order of two keys under a direction: two values compare as strings,
/// the other way round when descending; a key with a value comes before a
/// missing one in either direction.
pub open spec fn directed_key_order(a: Option<Seq<char>>, b: Option<Seq<char>>, d: Direction) -> Order {
    match (a, b) {
        (Some(x), Some(y)) => directed(str_order(x, y), d),
        _ => key_order(a, b),
    }
}

/// The order of two tasks under the directives: the first directive whose
/// keys differ decides.
pub open spec fn task_order(a: TaskView, b: TaskView, dirs: Seq<Directive>) -> Order
    decreases dirs.len(),
{
    if dirs.len() == 0 {
        Order::Equal
    } else {
        let o = directed_key_order(
            sort_key(a, dirs[0].field),
            sort_key(b, dirs[0].field),
            dirs[0].direction,
        );
        if o != Order::Equal {
            o
        } else {
            task_order(a, b, dirs.drop_first())
        }
    }
}

/// The bytes of a key.
pub open spec fn key_bytes(k: Option<Seq<char>>) -> Option<Seq<u8>> {
    match k {
        Some(s) => Some(encode_utf8(s)),
        None => None,
    }
}

/// The keys a task is ordered by: tasks with equal keys are in the same place.
pub open spec fn sort_keys(t: TaskView, dirs: Seq<Directive>) -> Seq<Option<Seq<u8>>> {
    dirs.map_values(|d: Directive| key_bytes(sort_key(t, d.field)))
}

/// The tasks ordered by the directives.
pub open spec fn is_sorted(s: Seq<StoredView>, dirs: Seq<Directive>) -> bool {
    forall|i: int, j: int|
        0 <= i < j < s.len() ==> task_order(s[i].task, s[j].task, dirs) != Order::Greater
}

/// The tasks with the keys `k`.
pub open spec fn with_keys(dirs: Seq<Directive>, k: Seq<Option<Seq<u8>>>) -> spec_fn(
    StoredView,
) -> bool {
    |x: StoredView| sort_keys(x.task, dirs) == k
}

/// `out` is `inp` ordered by the directives, with tasks of equal keys kept
/// in their order: a stable sort.
pub open spec fn is_stable_sort(out: Seq<StoredView>, inp: Seq<StoredView>, dirs: Seq<Directive>) -> bool {
    &&& out.len() == inp.len()
    &&& is_sorted(out, dirs)
    &&& forall|k: Seq<Option<Seq<u8>>>| #[trigger]
        out.filter(with_keys(dirs, k)) == inp.filter(with_keys(dirs, k))
}

pub proof fn lemma_key_order_flip(a: Option<Seq<char>>, b: Option<Seq<char>>)
    ensures
        key_order(b, a) == flip(key_order(a, b)),
{
    if a is Some && b is Some {
        lemma_lex_order_flip(encode_utf8(a->0), encode_utf8(b->0));
    }
}

pub proof fn lemma_key_order_equal(a: Option<Seq<char>>, b: Option<Seq<char>>)
    ensures
        (key_order(a, b) == Order::Equal) == (key_bytes(a) == key_bytes(b)),
{
    if a is Some && b is Some {
        lemma_lex_order_equal(encode_utf8(a->0), encode_utf8(b->0));
    }
}

pub proof fn lemma_key_order_trans(a: Option<Seq<char>>, b: Option<Seq<char>>, c: Option<Seq<char>>)
    requires
        key_order(a, b) == Order::Less,
        key_order(b, c) == Order::Less,
    ensures
        key_order(a, c) == Order::Less,
{
    if a is Some && b is Some && c is Some {
        lemma_lex_order_trans(encode_utf8(a->0), encode_utf8(b->0), encode_utf8(c->0));
    }
}

pub proof fn lemma_task_order_flip(a: TaskView, b: TaskView, dirs: Seq<Directive>)
    ensures
        task_order(b, a, dirs) == flip(task_order(a, b, dirs)),
    decreases dirs.len(),
{
    if dirs.len() > 0 {
        let f = dirs[0].field;
        lemma_directed_facts(sort_key(a, f), sort_key(b, f), sort_key(b, f), dirs[0].direction);
        lemma_task_order_flip(a, b, dirs.drop_first());
    }
}

pub proof fn lemma_task_order_equal(a: TaskView, b: TaskView, dirs: Seq<Directive>)
    ensures
        (task_order(a, b, dirs) == Order::Equal) == (sort_keys(a, dirs) == sort_keys(b, dirs)),
    decreases dirs.len(),
{
    if dirs.len() > 0 {
        let f = dirs[0].field;
        lemma_directed_facts(sort_key(a, f), sort_key(b, f), sort_key(b, f), dirs[0].direction);
        lemma_task_order_equal(a, b, dirs.drop_first());
        assert(sort_keys(a, dirs) =~= seq![key_bytes(sort_key(a, dirs[0].field))] + sort_keys(
            a,
            dirs.drop_first(),
        ));
        assert(sort_keys(b, dirs) =~= seq![key_bytes(sort_key(b, dirs[0].field))] + sort_keys(
            b,
            dirs.drop_first(),
        ));
        if sort_keys(a, dirs) == sort_keys(b, dirs) {
            assert(sort_keys(a, dirs)[0] == sort_keys(b, dirs)[0]);
            assert(sort_keys(a, dirs.drop_first()) =~= sort_keys(a, dirs).drop_first());
            assert(sort_keys(b, dirs.drop_first()) =~= sort_keys(b, dirs).drop_first());
        }
    } else {
        assert(sort_keys(a, dirs) =~= sort_keys(b, dirs));
    }
}

pub(crate) proof fn lemma_directed_facts(
    ka: Option<Seq<char>>,
    kb: Option<Seq<char>>,
    kc: Option<Seq<char>>,
    d: Direction,
)
    ensures
        directed_key_order(kb, ka, d) == flip(directed_key_order(ka, kb, d)),
        (directed_key_order(ka, kb, d) == Order::Equal) == (key_bytes(ka) == key_bytes(kb)),
        (directed_key_order(kb, kc, d) == Order::Equal) == (key_bytes(kb) == key_bytes(kc)),
        directed_key_order(ka, kb, d) == Order::Less && directed_key_order(kb, kc, d)
            == Order::Less ==> directed_key_order(ka, kc, d) == Order::Less,
        key_bytes(ka) == key_bytes(kb) ==> directed_key_order(ka, kc, d) == directed_key_order(kb, kc, d),
        key_bytes(kb) == key_bytes(kc) ==> directed_key_order(ka, kb, d) == directed_key_order(ka, kc, d),
{
    lemma_key_order_equal(ka, kb);
    lemma_key_order_equal(kb, kc);
    lemma_key_order_equal(ka, kc);
    lemma_key_order_flip(ka, kb);
    lemma_key_order_flip(kb, kc);
    lemma_key_order_flip(ka, kc);
    if key_order(ka, kb) == Order::Less && key_order(kb, kc) == Order::Less {
        lemma_key_order_trans(ka, kb, kc);
    }
    if key_order(kc, kb) == Order::Less && key_order(kb, ka) == Order::Less {
        lemma_key_order_trans(kc, kb, ka);
    }
    if key_bytes(ka) == key_bytes(kb) && ka is Some {
        vstd::utf8::encode_utf8_decode_utf8(ka->0);
        vstd::utf8::encode_utf8_decode_utf8(kb->0);
    }
    if key_bytes(kb) == key_bytes(kc) && kb is Some {
        vstd::utf8::encode_utf8_decode_utf8(kb->0);
        vstd::utf8::encode_utf8_decode_utf8(kc->0);
    }
}

/// Ordering tasks is transitive: `a <= b <= c` gives `a <= c`, and strictly
/// when either step is strict.
pub proof fn lemma_task_order_trans(a: TaskView, b: TaskView, c: TaskView, dirs: Seq<Directive>)
    requires
        task_order(a, b, dirs) != Order::Greater,
        task_order(b, c, dirs) != Order::Greater,
    ensures
        task_order(a, c, dirs) != Order::Greater,
        (task_order(a, b, dirs) == Order::Less || task_order(b, c, dirs) == Order::Less)
            ==> task_order(a, c, dirs) == Order::Less,
    decreases dirs.len(),
{
    if dirs.len() > 0 {
        let f = dirs[0].field;
        let d = dirs[0].direction;
        let ka = sort_key(a, f);
        let kb = sort_key(b, f);
        let kc = sort_key(c, f);
        lemma_directed_facts(ka, kb, kc, d);
        let oab = directed_key_order(ka, kb, d);
        let obc = directed_key_order(kb, kc, d);
        if oab == Order::Equal && obc == Order::Equal {
            lemma_task_order_trans(a, b, c, dirs.drop_first());
        }
    }
}

proof fn lemma_filter_none(s: Seq<StoredView>, p: spec_fn(StoredView) -> bool)
    requires
        forall|i: int| 0 <= i < s.len() ==> !p(#[trigger] s[i]),
    ensures
        s.filter(p) == Seq::<StoredView>::empty(),
{
    assert(s.all(|x: StoredView| !p(x)));
    s.lemma_all_neg_filter_empty(p);
    assert(s.filter(p) =~= Seq::<StoredView>::empty());
}

/// Inserting `x` after the tasks not greater than it and before the greater
/// ones keeps a stable sort stable.
proof fn lemma_insert_stable(
    o: Seq<StoredView>,
    inp: Seq<StoredView>,
    x: StoredView,
    p: int,
    dirs: Seq<Directive>,
)
    requires
        is_stable_sort(o, inp, dirs),
        0 <= p <= o.len(),
        forall|j: int| 0 <= j < p ==> task_order(#[trigger] o[j].task, x.task, dirs) != Order::Greater,
        p < o.len() ==> task_order(o[p].task, x.task, dirs) == Order::Greater,
    ensures
        is_stable_sort(o.insert(p, x), inp.push(x), dirs),
{
    broadcast use Seq::filter_distributes_over_add, Seq::lemma_filter_push;

    let n = o.insert(p, x);
    assert forall|j: int| p <= j < o.len() implies task_order(#[trigger] o[j].task, x.task, dirs)
        == Order::Greater by {
        lemma_task_order_flip(o[p].task, x.task, dirs);
        if j > p {
            lemma_task_order_trans(x.task, o[p].task, o[j].task, dirs);
            lemma_task_order_flip(x.task, o[j].task, dirs);
        }
    }
    assert forall|i: int, j: int| 0 <= i < j < n.len() implies task_order(
        n[i].task,
        n[j].task,
        dirs,
    ) != Order::Greater by {
        if j < p {
            assert(n[i] == o[i] && n[j] == o[j]);
        } else if j == p {
            assert(n[i] == o[i] && n[j] == x);
        } else if i < p {
            assert(n[i] == o[i] && n[j] == o[j - 1]);
        } else if i == p {
            assert(n[i] == x && n[j] == o[j - 1]);
            lemma_task_order_flip(o[j - 1].task, x.task, dirs);
        } else {
            assert(n[i] == o[i - 1] && n[j] == o[j - 1]);
        }
    }
    let pre = o.subrange(0, p);
    let post = o.subrange(p, o.len() as int);
    assert(o =~= pre + post);
    assert(n =~= pre + seq![x] + post);
    assert forall|k: Seq<Option<Seq<u8>>>| #[trigger]
        n.filter(with_keys(dirs, k)) == inp.push(x).filter(with_keys(dirs, k)) by {
        let w = with_keys(dirs, k);
        assert(o.filter(w) == inp.filter(w));
        assert(o.filter(w) == pre.filter(w) + post.filter(w));
        assert(n.filter(w) == (pre + seq![x]).filter(w) + post.filter(w));
        assert(seq![x] =~= Seq::<StoredView>::empty().push(x));
        assert((pre + seq![x]) =~= pre.push(x));
        if w(x) {
            assert forall|i: int| 0 <= i < post.len() implies !w(#[trigger] post[i]) by {
                assert(post[i] == o[p + i]);
                lemma_task_order_equal(o[p + i].task, x.task, dirs);
            }
            lemma_filter_none(post, w);
            assert(n.filter(w) =~= pre.filter(w).push(x));
            assert(o.filter(w) =~= pre.filter(w));
        } else {
            assert(n.filter(w) =~= pre.filter(w) + post.filter(w));
        }
    }
}

fn key_bytes_of(task: &Task, field: Field) -> (r: Option<Vec<u8>>)
    ensures
        match r {
            Some(v) => key_bytes(sort_key(task@, field)) == Some(v@),
            None => key_bytes(sort_key(task@, field)) is None,
        },
{
    match field {
        Field::Due => match find_tag(&task.tags, "due") {
            Some(v) => Some(v.as_str().as_bytes_vec()),
            None => None,
        },
        Field::Scheduled => match find_tag(&task.tags, "scheduled") {
            Some(v) => Some(v.as_str().as_bytes_vec()),
            None => None,
        },
        Field::Starting => match find_tag(&task.tags, "starting") {
            Some(v) => Some(v.as_str().as_bytes_vec()),
            None => None,
        },
        Field::CreationDate => match &task.creation_date {
            Some(v) => Some(v.as_str().as_bytes_vec()),
            None => None,
        },
        Field::Priority => match task.priority {
            Some(c) => Some(string_of_char(c).as_str().as_bytes_vec()),
            None => None,
        },
        Field::Project => if task.projects.len() > 0 {
            Some(task.projects[0].as_str().as_bytes_vec())
        } else {
            None
        },
        Field::Context => if task.contexts.len() > 0 {
            Some(task.contexts[0].as_str().as_bytes_vec())
        } else {
            None
        },
        Field::Description => Some(task.description.as_str().as_bytes_vec()),
        Field::Done => Some(
            if task.done {
                "1".as_bytes_vec()
            } else {
                "0".as_bytes_vec()
            },
        ),
    }
}

pub(crate) fn compare_keys(a: &Option<Vec<u8>>, b: &Option<Vec<u8>>) -> (r: Order)
    ensures
        forall|x: Option<Seq<char>>, y: Option<Seq<char>>|
            key_bytes(x) == (match a {
                Some(v) => Some(v@),
                None => None,
            }) && key_bytes(y) == (match b {
                Some(v) => Some(v@),
                None => None,
            }) ==> #[trigger] key_order(x, y) == r,
{
    match (a, b) {
        (Some(x), Some(y)) => compare_bytes(x.as_slice(), y.as_slice()),
        (Some(_), None) => Order::Less,
        (None, Some(_)) => Order::Greater,
        (None, None) => Order::Equal,
    }
}

/// Compares two keys, given as bytes, under a direction.
pub(crate) fn compare_directed(a: &Option<Vec<u8>>, b: &Option<Vec<u8>>, d: Direction) -> (r: Order)
    ensures
        forall|x: Option<Seq<char>>, y: Option<Seq<char>>|
            key_bytes(x) == (match a {
                Some(v) => Some(v@),
                None => None,
            }) && key_bytes(y) == (match b {
                Some(v) => Some(v@),
                None => None,
            }) ==> #[trigger] directed_key_order(x, y, d) == r,
{
    let o = compare_keys(a, b);
    match d {
        Direction::Asc => o,
        Direction::Desc => if a.is_some() && b.is_some() {
            match o {
                Order::Less => Order::Greater,
                Order::Equal => Order::Equal,
                Order::Greater => Order::Less,
            }
        } else {
            o
        },
    }
}

/// Compares two tasks under the directives.
fn compare_tasks(a: &Task, b: &Task, dirs: &[Directive]) -> (r: Order)
    ensures
        r == task_order(a@, b@, dirs@),
{
    let mut i: usize = 0;
    assert(dirs@.skip(0) =~= dirs@);
    while i < dirs.len()
        invariant
            i <= dirs@.len(),
            task_order(a@, b@, dirs@) == task_order(a@, b@, dirs@.skip(i as int)),
        decreases dirs@.len() - i,
    {
        let d = dirs[i];
        let ka = key_bytes_of(a, d.field);
        let kb = key_bytes_of(b, d.field);
        let o = compare_directed(&ka, &kb, d.direction);
        assert(directed_key_order(sort_key(a@, d.field), sort_key(b@, d.field), d.direction) == o);
        assert(dirs@.skip(i as int)[0] == d);
        if o != Order::Equal {
            return o;
        }
        assert(dirs@.skip(i as int).drop_first() =~= dirs@.skip(i + 1));
        i = i + 1;
    }
    Order::Equal
}

/// The tasks ordered by the directives, keeping the order of tasks whose
/// keys are equal.
fn stable_sorted(tasks: &[StoredTask], dirs: &[Directive]) -> (r: Vec<StoredTask>)
    ensures
        is_stable_sort(stored_view(r@), stored_view(tasks@), dirs@),
{
    let mut out: Vec<StoredTask> = Vec::new();
    let mut i: usize = 0;
    assert(stored_view(tasks@.take(0)) =~= Seq::<StoredView>::empty());
    assert(stored_view(out@) =~= Seq::<StoredView>::empty());
    while i < tasks.len()
        invariant
            i <= tasks@.len(),
            is_stable_sort(stored_view(out@), stored_view(tasks@.take(i as int)), dirs@),
        decreases tasks@.len() - i,
    {
        let x = &tasks[i];
        let ghost o = stored_view(out@);
        let mut p: usize = 0;
        while p < out.len() && compare_tasks(&out[p].task, &x.task, dirs) != Order::Greater
            invariant
                p <= out@.len(),
                o == stored_view(out@),
                forall|j: int|
                    0 <= j < p ==> task_order(#[trigger] o[j].task, x@.task, dirs@)
                        != Order::Greater,
            decreases out@.len() - p,
        {
            p = p + 1;
        }
        proof {
            lemma_insert_stable(o, stored_view(tasks@.take(i as int)), x@, p as int, dirs@);
        }
        out.insert(p, x.duplicate());
        assert(stored_view(out@) =~= o.insert(p as int, x@));
        assert(stored_view(tasks@.take(i + 1)) =~= stored_view(tasks@.take(i as int)).push(x@));
        i = i + 1;
    }
    assert(tasks@.take(tasks@.len() as int) =~= tasks@);
    out
}

/// The tasks the list selects, ordered by its sort directives (the first
/// directive decides first; values compare as strings, the other way round
/// for a descending directive, and a task with a value comes before one
/// without in either direction; ties keep the tasks' order).
pub fn evaluate(list: &SmartList, tasks: &[StoredTask], today: &str) -> (r: Vec<StoredTask>)
    requires
        list_ok(*list, tasks@, today@),
    ensures
        is_stable_sort(
            stored_view(r@),
            selected(*list, stored_view(tasks@), today@),
            list.sort_directives@,
        ),
{
    let matched = filter_only(list, tasks, today);
    stable_sorted(matched.as_slice(), list.sort_directives.as_slice())
}

/// Two sequences ordered by the directives that hold the same tasks of each
/// key class, in the same order, are equal.
proof fn lemma_sorted_unique(a: Seq<StoredView>, b: Seq<StoredView>, dirs: Seq<Directive>)
    requires
        a.len() == b.len(),
        is_sorted(a, dirs),
        is_sorted(b, dirs),
        forall|k: Seq<Option<Seq<u8>>>| #[trigger]
            a.filter(with_keys(dirs, k)) == b.filter(with_keys(dirs, k)),
    ensures
        a == b,
    decreases a.len(),
{
    if a.len() > 0 {
        let x = a[0];
        let y = b[0];
        let ta = a.drop_first();
        let tb = b.drop_first();
        assert(a =~= seq![x] + ta);
        assert(b =~= seq![y] + tb);
        let px = with_keys(dirs, sort_keys(x.task, dirs));
        let py = with_keys(dirs, sort_keys(y.task, dirs));
        ta.lemma_filter_prepend(x, py);
        tb.lemma_filter_prepend(y, py);
        ta.lemma_filter_prepend(x, px);
        tb.lemma_filter_prepend(y, px);
        assert(a.filter(py) == b.filter(py));
        assert(a.filter(px) == b.filter(px));
        assert(b.filter(py)[0] == y);
        assert(a.filter(px)[0] == x);
        assert(a.filter(py).contains(y));
        assert(b.filter(px).contains(x));
        a.lemma_filter_contains_rev(py, y);
        b.lemma_filter_contains_rev(px, x);
        let j = choose|j: int| 0 <= j < a.len() && a[j] == y;
        let m = choose|m: int| 0 <= m < b.len() && b[m] == x;
        lemma_task_order_equal(x.task, x.task, dirs);
        lemma_task_order_equal(y.task, y.task, dirs);
        if j > 0 {
            assert(task_order(a[0].task, a[j].task, dirs) != Order::Greater);
        }
        if m > 0 {
            assert(task_order(b[0].task, b[m].task, dirs) != Order::Greater);
        }
        lemma_task_order_flip(x.task, y.task, dirs);
        lemma_task_order_equal(x.task, y.task, dirs);
        assert(task_order(x.task, y.task, dirs) == Order::Equal);
        assert(px == py);
        assert(x == y);
        assert forall|k: Seq<Option<Seq<u8>>>| #[trigger]
            ta.filter(with_keys(dirs, k)) == tb.filter(with_keys(dirs, k)) by {
            let pk = with_keys(dirs, k);
            ta.lemma_filter_prepend(x, pk);
            tb.lemma_filter_prepend(x, pk);
            assert(a.filter(pk) == b.filter(pk));
            if pk(x) {
                assert(ta.filter(pk) =~= a.filter(pk).drop_first());
                assert(tb.filter(pk) =~= b.filter(pk).drop_first());
            } else {
                assert(ta.filter(pk) =~= a.filter(pk));
                assert(tb.filter(pk) =~= b.filter(pk));
            }
        }
        assert forall|i: int, k: int| 0 <= i < k < ta.len() implies task_order(
            ta[i].task,
            ta[k].task,
            dirs,
        ) != Order::Greater by {
            assert(ta[i] == a[i + 1] && ta[k] == a[k + 1]);
        }
        assert forall|i: int, k: int| 0 <= i < k < tb.len() implies task_order(
            tb[i].task,
            tb[k].task,
            dirs,
        ) != Order::Greater by {
            assert(tb[i] == b[i + 1] && tb[k] == b[k + 1]);
        }
        lemma_sorted_unique(ta, tb, dirs);
        assert(a =~= b);
    }
}

/// A stable sort is determined by what it sorts: two stable sorts of the
/// same tasks by the same directives are equal.
pub proof fn law_stable_sort_unique(
    out1: Seq<StoredView>,
    out2: Seq<StoredView>,
    inp: Seq<StoredView>,
    dirs: Seq<Directive>,
)
    requires
        is_stable_sort(out1, inp, dirs),
        is_stable_sort(out2, inp, dirs),
    ensures
        out1 == out2,
{
    assert forall|k: Seq<Option<Seq<u8>>>| #[trigger]
        out1.filter(with_keys(dirs, k)) == out2.filter(with_keys(dirs, k)) by {
        assert(out1.filter(with_keys(dirs, k)) == inp.filter(with_keys(dirs, k)));
        assert(out2.filter(with_keys(dirs, k)) == inp.filter(with_keys(dirs, k)));
    }
    lemma_sorted_unique(out1, out2, dirs);
}

/// Tasks with a value for the first directive's field come before tasks
/// without one, whichever its direction: in a sorted result a task with no
/// value is followed only by tasks with none.
pub proof fn law_values_before_missing(
    out: Seq<StoredView>,
    inp: Seq<StoredView>,
    dirs: Seq<Directive>,
    i: int,
    j: int,
)
    requires
        is_stable_sort(out, inp, dirs),
        dirs.len() > 0,
        0 <= i < j < out.len(),
        sort_key(out[i].task, dirs[0].field) is None,
    ensures
        sort_key(out[j].task, dirs[0].field) is None,
{
    assert(task_order(out[i].task, out[j].task, dirs) != Order::Greater);
}

/// Evaluating a list gives what filtering the tasks by the list and then
/// sorting them by its sort directives gives.
pub proof fn law_evaluate_is_filter_then_sort(
    list: SmartList,
    tasks: Seq<StoredView>,
    today: Seq<char>,
    evaluated: Seq<StoredView>,
    filtered: Seq<StoredView>,
    sorted: Seq<StoredView>,
)
    requires
        is_stable_sort(evaluated, selected(list, tasks, today), list.sort_directives@),
        filtered == selected(list, tasks, today),
        is_stable_sort(sorted, filtered, list.sort_directives@),
    ensures
        evaluated == sorted,
{
    law_stable_sort_unique(evaluated, sorted, filtered, list.sort_directives@);
}

/// Orders the tasks by the directives, keeping the order of ties.
pub fn sort_by_directives(tasks: &mut [StoredTask], directives: &[Directive])
    ensures
        is_stable_sort(stored_view(final(tasks)@), stored_view(old(tasks)@), directives@),
{
    let sorted = stable_sorted(tasks, directives);
    let ghost target = stored_view(sorted@);
    let n = tasks.len();
    let mut i: usize = 0;
    while i < n
        invariant
            i <= n,
            n == tasks@.len(),
            sorted@.len() == n,
            target == stored_view(sorted@),
            forall|j: int| 0 <= j < i ==> (#[trigger] tasks@[j])@ == target[j],
        decreases n - i,
    {
        tasks[i] = sorted[i].duplicate();
        i = i + 1;
    }
    assert(stored_view(tasks@) =~= target);
}

// ── Grouping ────────────────────────────────────────────────────────────────

/// Tasks that share a label.
#[derive(Debug, Clone)]
pub struct TaskGroup {
    pub label: String,
    pub tasks: Vec<StoredTask>,
}

pub open spec fn group_view(g: TaskGroup) -> (Seq<char>, Seq<StoredView>) {
    (g.label@, stored_view(g.tasks@))
}

pub open spec fn groups_view(v: Seq<TaskGroup>) -> Seq<(Seq<char>, Seq<StoredView>)> {
    v.map_values(|g: TaskGroup| group_view(g))
}

/// The name a field is shown by.
pub open spec fn display_name(f: Field) -> Seq<char> {
    match f {
        Field::Due => "due"@,
        Field::Scheduled => "scheduled"@,
        Field::Starting => "starting"@,
        Field::CreationDate => "creation date"@,
        Field::Priority => "priority"@,
        Field::Project => "project"@,
        Field::Context => "context"@,
        Field::Description => "description"@,
        Field::Done => "done"@,
    }
}

/// The name a field is shown by.
pub fn field_display_name(field: &Field) -> (r: &'static str)
    ensures
        r@ == display_name(*field),
{
    match field {
        Field::Due => "due",
        Field::Scheduled => "scheduled",
        Field::Starting => "starting",
        Field::CreationDate => "creation date",
        Field::Priority => "priority",
        Field::Project => "project",
        Field::Context => "context",
        Field::Description => "description",
        Field::Done => "done",
    }
}

/// What `char::to_uppercase` gives for `c`: its Unicode uppercase mapping.
pub uninterp spec fn char_uppercase(c: char) -> Seq<char>;

/// The uppercase form of `c` (`char::to_uppercase`); an ASCII lowercase
/// letter becomes its capital.
#[verifier::external_body]
fn uppercase_of(c: char) -> (r: String)
    ensures
        r@ == char_uppercase(c),
        'a' <= c <= 'z' ==> r@ == seq![((c as u32) - 32) as char],
{
    c.to_uppercase().to_string()
}

/// `s` with its first character in uppercase.
pub open spec fn capitalized(s: Seq<char>) -> Seq<char> {
    if s.len() == 0 {
        s
    } else {
        char_uppercase(s[0]) + s.drop_first()
    }
}

fn capitalize(s: &str) -> (r: String)
    ensures
        r@ == capitalized(s@),
{
    let cs = chars_of(s);
    if cs.len() == 0 {
        return String::new();
    }
    let first = uppercase_of(cs[0]);
    let rest = string_of(slice_range(cs.as_slice(), 1, cs.len()));
    assert(cs@.subrange(1, cs@.len() as int) =~= s@.drop_first());
    first.concat(rest.as_str())
}

/// The value a task is grouped by for a field, if it has one.
pub open spec fn group_key(t: TaskView, f: Field) -> Option<Seq<char>> {
    match f {
        Field::Done => Some(
            if t.done {
                "Done"@
            } else {
                "Not done"@
            },
        ),
        _ => sort_key(t, f),
    }
}

fn group_key_of(task: &Task, field: Field) -> (r: Option<String>)
    ensures
        opt_view(r) == group_key(task@, field),
{
    let s: Option<&String> = match field {
        Field::Due => find_tag(&task.tags, "due"),
        Field::Scheduled => find_tag(&task.tags, "scheduled"),
        Field::Starting => find_tag(&task.tags, "starting"),
        Field::CreationDate => match &task.creation_date {
            Some(v) => Some(v),
            None => None,
        },
        Field::Priority => {
            return match task.priority {
                Some(c) => Some(string_of_char(c)),
                None => None,
            };
        },
        Field::Project => if task.projects.len() > 0 {
            Some(&task.projects[0])
        } else {
            None
        },
        Field::Context => if task.contexts.len() > 0 {
            Some(&task.contexts[0])
        } else {
            None
        },
        Field::Description => Some(&task.description),
        Field::Done => {
            let word = if task.done {
                "Done"
            } else {
                "Not done"
            };
            return Some(string_of(chars_of(word).as_slice()));
        },
    };
    match s {
        Some(v) => Some(v.clone()),
        None => None,
    }
}

/// Whether some task has the group key `k`.
pub open spec fn key_present(inp: Seq<StoredView>, f: Field, k: Seq<char>) -> bool {
    exists|i: int| 0 <= i < inp.len() && group_key((#[trigger] inp[i]).task, f) == Some(k)
}

/// The tasks whose group key is `k`, in their order.
pub open spec fn tasks_with_key(inp: Seq<StoredView>, f: Field, k: Option<Seq<char>>) -> Seq<
    StoredView,
> {
    inp.filter(key_is(f, k))
}

pub open spec fn key_is(f: Field, k: Option<Seq<char>>) -> spec_fn(StoredView) -> bool {
    |x: StoredView| group_key(x.task, f) == k
}

/// Keys in strictly increasing (`Asc`) or decreasing (`Desc`) order.
pub open spec fn strictly_ordered(keys: Seq<Seq<char>>, d: Direction) -> bool {
    forall|i: int, j: int|
        0 <= i < j < keys.len() ==> str_order(keys[i], keys[j]) == directed(Order::Less, d)
}

/// The label of the group of tasks whose key is `k`.
pub open spec fn group_label(f: Field, k: Seq<char>) -> Seq<char> {
    capitalized(display_name(f)) + ": "@ + k
}

/// `r` groups `inp` by the first directive: one group per key the tasks
/// have, ordered by key in the directive's direction, labelled
/// `Field: key` and holding the tasks with that key in their order; then,
/// when some task has no value, a last group `No field` holding those.
pub open spec fn is_grouping(r: Seq<(Seq<char>, Seq<StoredView>)>, inp: Seq<StoredView>, d: Directive) -> bool {
    let f = d.field;
    let has_none = has_keyless(inp, f);
    let m = keyed_count(r.len() as int, inp, f);
    &&& m >= 0
    &&& has_none ==> r[m] == ("No "@ + display_name(f), tasks_with_key(inp, f, None))
    &&& exists|keys: Seq<Seq<char>>| #[trigger] keyed_groups(r, inp, d, keys, m)
}

/// How many of `n` groups belong to keys: all but the last when some task
/// has no value.
pub open spec fn keyed_count(n: int, inp: Seq<StoredView>, f: Field) -> int {
    if has_keyless(inp, f) {
        n - 1
    } else {
        n
    }
}

/// Whether some task has no value for the field.
pub open spec fn has_keyless(inp: Seq<StoredView>, f: Field) -> bool {
    exists|i: int| 0 <= i < inp.len() && group_key((#[trigger] inp[i]).task, f) is None
}

/// The first `m` groups of `r` are those of `keys`, which are the tasks'
/// distinct keys in the directive's order.
pub open spec fn keyed_groups(
    r: Seq<(Seq<char>, Seq<StoredView>)>,
    inp: Seq<StoredView>,
    d: Directive,
    keys: Seq<Seq<char>>,
    m: int,
) -> bool {
    &&& keys.len() == m
    &&& strictly_ordered(keys, d.direction)
    &&& forall|k: Seq<char>| key_present(inp, d.field, k) <==> keys.contains(k)
    &&& forall|j: int|
        0 <= j < m ==> #[trigger] r[j] == (
            group_label(d.field, keys[j]),
            tasks_with_key(inp, d.field, Some(keys[j])),
        )
}

/// The distinct group keys of the tasks, in increasing order.
#[verifier::spinoff_prover]
fn sorted_keys(tasks: &[StoredTask], field: Field) -> (r: Vec<String>)
    ensures
        strictly_ordered(strings_view(r@), Direction::Asc),
        forall|k: Seq<char>|
            key_present(stored_view(tasks@), field, k) <==> strings_view(r@).contains(k),
{
    let ghost inp = stored_view(tasks@);
    let mut keys: Vec<String> = Vec::new();
    let mut i: usize = 0;
    assert(strs(keys@) =~= Seq::<Seq<char>>::empty());
    while i < tasks.len()
        invariant
            i <= tasks@.len(),
            inp == stored_view(tasks@),
            increasing(strs(keys@)),
            forall|k: Seq<char>|
                key_present(inp.take(i as int), field, k) <==> strs(keys@).contains(k),
        decreases tasks@.len() - i,
    {
        assert forall|k: Seq<char>| key_present(inp.take(i + 1), field, k) == (key_present(
            inp.take(i as int),
            field,
            k,
        ) || group_key(inp[i as int].task, field) == Some(k)) by {
            if key_present(inp.take(i + 1), field, k) {
                let w = choose|w: int|
                    0 <= w < i + 1 && group_key((#[trigger] inp.take(i + 1)[w]).task, field)
                        == Some(k);
                if w < i {
                    assert(inp.take(i as int)[w] == inp.take(i + 1)[w]);
                }
            }
            if key_present(inp.take(i as int), field, k) {
                let w = choose|w: int|
                    0 <= w < i && group_key((#[trigger] inp.take(i as int)[w]).task, field)
                        == Some(k);
                assert(inp.take(i + 1)[w] == inp.take(i as int)[w]);
            }
            if group_key(inp[i as int].task, field) == Some(k) {
                assert(inp.take(i + 1)[i as int] == inp[i as int]);
            }
        }
        assert(inp[i as int].task == tasks@[i as int].task@);
        let ghost kv = strs(keys@);
        match group_key_of(&tasks[i].task, field) {
            Some(k) => {
                let ghost kk = k@;
                insert_sorted_unique(&mut keys, k);
                assert(group_key(inp[i as int].task, field) == Some(kk));
                assert forall|x: Seq<char>| key_present(inp.take(i + 1), field, x) <==> strs(
                    keys@,
                ).contains(x) by {
                    assert(strs(keys@).contains(x) <==> (kv.contains(x) || x == kk));
                    assert(key_present(inp.take(i as int), field, x) <==> kv.contains(x));
                    assert(key_present(inp.take(i + 1), field, x) == (key_present(
                        inp.take(i as int),
                        field,
                        x,
                    ) || group_key(inp[i as int].task, field) == Some(x)));
                }
            },
            None => {
                assert forall|x: Seq<char>| key_present(inp.take(i + 1), field, x) <==> strs(
                    keys@,
                ).contains(x) by {}
            },
        }
        i = i + 1;
    }
    assert(inp.take(tasks@.len() as int) =~= inp);
    assert(strings_view(keys@) == strs(keys@));
    keys
}

/// The tasks whose group key is `key`, in their order.
fn tasks_with(tasks: &[StoredTask], field: Field, key: &Option<String>) -> (r: Vec<StoredTask>)
    ensures
        stored_view(r@) == tasks_with_key(stored_view(tasks@), field, opt_view(*key)),
{
    let ghost inp = stored_view(tasks@);
    let ghost pred = key_is(field, opt_view(*key));
    let mut out: Vec<StoredTask> = Vec::new();
    let mut i: usize = 0;
    while i < tasks.len()
        invariant
            i <= tasks@.len(),
            inp == stored_view(tasks@),
            pred == key_is(field, opt_view(*key)),
            stored_view(out@) == inp.take(i as int).filter(pred),
        decreases tasks@.len() - i,
    {
        assert(inp.take(i + 1) =~= inp.take(i as int).push(inp[i as int]));
        proof {
            inp.take(i as int).lemma_filter_push(inp[i as int], pred);
        }
        let k = group_key_of(&tasks[i].task, field);
        let same = match (&k, key) {
            (Some(a), Some(b)) => *a == *b,
            (None, None) => true,
            _ => false,
        };
        if same {
            out.push(tasks[i].duplicate());
            assert(stored_view(out@) =~= inp.take(i as int).filter(pred).push(inp[i as int]));
        }
        i = i + 1;
    }
    assert(inp.take(tasks@.len() as int) =~= inp);
    out
}

/// A task in the group of index `j` has that group's key.
proof fn lemma_group_member_key(
    r: Seq<(Seq<char>, Seq<StoredView>)>,
    inp: Seq<StoredView>,
    d: Directive,
    keys: Seq<Seq<char>>,
    j: int,
    x: StoredView,
)
    requires
        is_grouping(r, inp, d),
        keyed_groups(r, inp, d, keys, keyed_count(r.len() as int, inp, d.field)),
        0 <= j < r.len(),
        r[j].1.contains(x),
    ensures
        j < keyed_count(r.len() as int, inp, d.field) ==> group_key(x.task, d.field) == Some(keys[j]),
        j == keyed_count(r.len() as int, inp, d.field) ==> group_key(x.task, d.field) is None,
{
    let m = keyed_count(r.len() as int, inp, d.field);
    let k: Option<Seq<char>> = if j < m {
        Some(keys[j])
    } else {
        None
    };
    assert(r[j].1 == tasks_with_key(inp, d.field, k));
    let t = choose|t: int| 0 <= t < r[j].1.len() && r[j].1[t] == x;
    inp.lemma_filter_pred(key_is(d.field, k), t);
}

/// Grouping places every task in exactly one group.
pub proof fn law_grouping_places_each_task_once(
    r: Seq<(Seq<char>, Seq<StoredView>)>,
    inp: Seq<StoredView>,
    d: Directive,
    i: int,
)
    requires
        is_grouping(r, inp, d),
        0 <= i < inp.len(),
    ensures
        exists|j: int| 0 <= j < r.len() && (#[trigger] r[j]).1.contains(inp[i]),
        forall|j1: int, j2: int|
            0 <= j1 < r.len() && 0 <= j2 < r.len() && (#[trigger] r[j1]).1.contains(inp[i])
                && (#[trigger] r[j2]).1.contains(inp[i]) ==> j1 == j2,
{
    let f = d.field;
    let m = keyed_count(r.len() as int, inp, f);
    let keys = choose|keys: Seq<Seq<char>>| #[trigger] keyed_groups(r, inp, d, keys, m);
    let x = inp[i];
    match group_key(x.task, f) {
        Some(k) => {
            assert(key_present(inp, f, k));
            assert(keys.contains(k));
            let j = choose|j: int| 0 <= j < keys.len() && keys[j] == k;
            assert(r[j] == (group_label(f, keys[j]), tasks_with_key(inp, f, Some(keys[j]))));
            inp.lemma_filter_contains(key_is(f, Some(k)), i);
            assert(r[j].1.contains(inp[i]));
        },
        None => {
            assert(has_keyless(inp, f));
            inp.lemma_filter_contains(key_is(f, None), i);
            assert(r[m].1.contains(inp[i]));
        },
    }
    assert forall|j1: int, j2: int|
        0 <= j1 < r.len() && 0 <= j2 < r.len() && (#[trigger] r[j1]).1.contains(inp[i])
            && (#[trigger] r[j2]).1.contains(inp[i]) implies j1 == j2 by {
        lemma_group_member_key(r, inp, d, keys, j1, x);
        lemma_group_member_key(r, inp, d, keys, j2, x);
        if j1 < m && j2 < m && j1 != j2 {
            lemma_str_order_equal(keys[j1], keys[j2]);
            if j1 < j2 {
                assert(str_order(keys[j1], keys[j2]) == directed(Order::Less, d.direction));
            } else {
                assert(str_order(keys[j2], keys[j1]) == directed(Order::Less, d.direction));
                lemma_str_order_equal(keys[j2], keys[j1]);
            }
        }
    }
}

/// Two strictly ordered key sequences with the same keys are equal.
proof fn lemma_strict_keys_unique(k1: Seq<Seq<char>>, k2: Seq<Seq<char>>, dir: Direction)
    requires
        strictly_ordered(k1, dir),
        strictly_ordered(k2, dir),
        forall|x: Seq<char>| k1.contains(x) <==> k2.contains(x),
    ensures
        k1 == k2,
    decreases k1.len() + k2.len(),
{
    if k1.len() == 0 || k2.len() == 0 {
        if k1.len() > 0 {
            assert(k1.contains(k1[0]));
        }
        if k2.len() > 0 {
            assert(k2.contains(k2[0]));
        }
        assert(k1 =~= k2);
    } else {
        let a = k1[0];
        let b = k2[0];
        assert(k1.contains(a));
        assert(k2.contains(b));
        if a != b {
            let i = choose|i: int| 0 <= i < k2.len() && k2[i] == a;
            let j = choose|j: int| 0 <= j < k1.len() && k1[j] == b;
            assert(i > 0 && j > 0);
            assert(str_order(b, a) == directed(Order::Less, dir));
            assert(str_order(a, b) == directed(Order::Less, dir));
            lemma_lex_order_flip(encode_utf8(a), encode_utf8(b));
        }
        let t1 = k1.drop_first();
        let t2 = k2.drop_first();
        assert forall|i: int, j: int| 0 <= i < j < t1.len() implies str_order(t1[i], t1[j])
            == directed(Order::Less, dir) by {
            assert(t1[i] == k1[i + 1] && t1[j] == k1[j + 1]);
        }
        assert forall|i: int, j: int| 0 <= i < j < t2.len() implies str_order(t2[i], t2[j])
            == directed(Order::Less, dir) by {
            assert(t2[i] == k2[i + 1] && t2[j] == k2[j + 1]);
        }
        assert forall|x: Seq<char>| t1.contains(x) <==> t2.contains(x) by {
            if t1.contains(x) {
                let i = choose|i: int| 0 <= i < t1.len() && t1[i] == x;
                assert(k1[i + 1] == x);
                assert(str_order(a, x) == directed(Order::Less, dir));
                lemma_str_order_equal(a, x);
                assert(k2.contains(x));
                let q = choose|q: int| 0 <= q < k2.len() && k2[q] == x;
                assert(q > 0);
                assert(t2[q - 1] == x);
            }
            if t2.contains(x) {
                let i = choose|i: int| 0 <= i < t2.len() && t2[i] == x;
                assert(k2[i + 1] == x);
                assert(str_order(b, x) == directed(Order::Less, dir));
                lemma_str_order_equal(b, x);
                assert(k1.contains(x));
                let q = choose|q: int| 0 <= q < k1.len() && k1[q] == x;
                assert(q > 0);
                assert(t1[q - 1] == x);
            }
        }
        lemma_strict_keys_unique(t1, t2, dir);
        assert(k1 =~= seq![a] + t1);
        assert(k2 =~= seq![b] + t2);
    }
}

/// A grouping is determined by the tasks and the directive: two groupings
/// of the same tasks by the same directive are equal.
pub proof fn law_grouping_unique(
    r1: Seq<(Seq<char>, Seq<StoredView>)>,
    r2: Seq<(Seq<char>, Seq<StoredView>)>,
    inp: Seq<StoredView>,
    d: Directive,
)
    requires
        is_grouping(r1, inp, d),
        is_grouping(r2, inp, d),
    ensures
        r1 == r2,
{
    let m1 = keyed_count(r1.len() as int, inp, d.field);
    let m2 = keyed_count(r2.len() as int, inp, d.field);
    let k1 = choose|keys: Seq<Seq<char>>| #[trigger] keyed_groups(r1, inp, d, keys, m1);
    let k2 = choose|keys: Seq<Seq<char>>| #[trigger] keyed_groups(r2, inp, d, keys, m2);
    assert forall|x: Seq<char>| k1.contains(x) <==> k2.contains(x) by {
        assert(key_present(inp, d.field, x) <==> k1.contains(x));
        assert(key_present(inp, d.field, x) <==> k2.contains(x));
    }
    lemma_strict_keys_unique(k1, k2, d.direction);
    assert(r1.len() == r2.len());
    assert forall|j: int| 0 <= j < r1.len() implies r1[j] == r2[j] by {
        if j < m1 {
            assert(r1[j] == (group_label(d.field, k1[j]), tasks_with_key(inp, d.field, Some(k1[j]))));
            assert(r2[j] == (group_label(d.field, k2[j]), tasks_with_key(inp, d.field, Some(k2[j]))));
        }
    }
    assert(r1 =~= r2);
}

/// Grouping by a list is grouping by its group directives: any result of
/// `group` equals any result of `group_by_directives` on the list's
/// directives and the same tasks.
pub proof fn law_group_is_group_by_directives(
    list: SmartList,
    inp: Seq<StoredView>,
    r1: Seq<(Seq<char>, Seq<StoredView>)>,
    r2: Seq<(Seq<char>, Seq<StoredView>)>,
)
    requires
        list.group_directives@.len() == 0 ==> r1 == seq![(Seq::<char>::empty(), inp)],
        list.group_directives@.len() > 0 ==> is_grouping(r1, inp, list.group_directives@[0]),
        list.group_directives@.len() == 0 ==> r2 == seq![(Seq::<char>::empty(), inp)],
        list.group_directives@.len() > 0 ==> is_grouping(r2, inp, list.group_directives@[0]),
    ensures
        r1 == r2,
{
    if list.group_directives@.len() > 0 {
        law_grouping_unique(r1, r2, inp, list.group_directives@[0]);
    }
}

/// The groups of the tasks under the first directive; without one, a
/// single group with an empty label holding all tasks.
pub fn group_by_directives(directives: &[Directive], tasks: &[StoredTask]) -> (r: Vec<TaskGroup>)
    ensures
        directives@.len() == 0 ==> groups_view(r@) == seq![(Seq::<char>::empty(), stored_view(tasks@))],
        directives@.len() > 0 ==> is_grouping(groups_view(r@), stored_view(tasks@), directives@[0]),
{
    let ghost inp = stored_view(tasks@);
    if directives.len() == 0 {
        let mut groups: Vec<TaskGroup> = Vec::new();
        groups.push(TaskGroup { label: String::new(), tasks: copy_tasks(tasks) });
        assert(groups_view(groups@) =~= seq![(Seq::<char>::empty(), inp)]);
        return groups;
    }
    let directive = directives[0];
    let field = directive.field;
    let ascending = sorted_keys(tasks, field);
    let ghost asc = strings_view(ascending@);
    let keys: Vec<String> = match directive.direction {
        Direction::Asc => ascending,
        Direction::Desc => {
            let mut rev: Vec<String> = Vec::new();
            let mut j: usize = ascending.len();
            while j > 0
                invariant
                    j <= ascending@.len(),
                    asc == strings_view(ascending@),
                    strings_view(rev@) == asc.subrange(j as int, asc.len() as int).reverse(),
                decreases j,
            {
                j = j - 1;
                rev.push(ascending[j].clone());
                assert(asc.subrange(j as int, asc.len() as int).reverse() =~= asc.subrange(
                    j + 1,
                    asc.len() as int,
                ).reverse().push(asc[j as int]));
            }
            assert(asc.subrange(0, asc.len() as int) =~= asc);
            rev
        },
    };
    let ghost kv = strings_view(keys@);
    proof {
        if directive.direction == Direction::Desc {
            assert(kv =~= asc.reverse());
            assert forall|a: int, b: int| 0 <= a < b < kv.len() implies str_order(kv[a], kv[b])
                == directed(Order::Less, directive.direction) by {
                let ia = asc.len() - 1 - a;
                let ib = asc.len() - 1 - b;
                assert(kv[a] == asc[ia] && kv[b] == asc[ib]);
                assert(str_order(asc[ib], asc[ia]) == directed(Order::Less, Direction::Asc));
                lemma_lex_order_flip(encode_utf8(asc[ib]), encode_utf8(asc[ia]));
            }
            assert forall|x: Seq<char>| asc.contains(x) <==> kv.contains(x) by {
                if asc.contains(x) {
                    let w = choose|w: int| 0 <= w < asc.len() && asc[w] == x;
                    assert(kv[asc.len() - 1 - w] == x);
                }
                if kv.contains(x) {
                    let w = choose|w: int| 0 <= w < kv.len() && kv[w] == x;
                    assert(asc[asc.len() - 1 - w] == x);
                }
            }
        }
    }
    let prefix = capitalize(field_display_name(&field));
    let mut groups: Vec<TaskGroup> = Vec::new();
    let mut j: usize = 0;
    while j < keys.len()
        invariant
            j <= keys@.len(),
            kv == strings_view(keys@),
            prefix@ == capitalized(display_name(field)),
            inp == stored_view(tasks@),
            groups@.len() == j,
            forall|m: int|
                0 <= m < j ==> #[trigger] groups_view(groups@)[m] == (
                    group_label(field, kv[m]),
                    tasks_with_key(inp, field, Some(kv[m])),
                ),
        decreases keys@.len() - j,
    {
        let key = keys[j].clone();
        let label = prefix.clone().concat(": ").concat(key.as_str());
        let members = tasks_with(tasks, field, &Some(key));
        let ghost before = groups_view(groups@);
        groups.push(TaskGroup { label, tasks: members });
        assert(groups_view(groups@) =~= before.push(groups_view(groups@)[j as int]));
        j = j + 1;
    }
    let no_value = tasks_with(tasks, field, &None);
    let ghost has_none = has_keyless(inp, field);
    proof {
        let pred = key_is(field, None);
        if has_none {
            let w = choose|i: int| 0 <= i < inp.len() && group_key((#[trigger] inp[i]).task, field) is None;
            inp.lemma_filter_contains(pred, w);
            assert(inp.filter(pred).len() > 0);
        } else {
            assert forall|i: int| 0 <= i < inp.len() implies !pred(#[trigger] inp[i]) by {}
            lemma_filter_none(inp, pred);
        }
    }
    let ghost labelled = groups_view(groups@);
    assert(stored_view(no_value@) == tasks_with_key(inp, field, None));
    assert(has_none == (no_value@.len() > 0));
    if no_value.len() > 0 {
        let fallback = string_of(chars_of("No ").as_slice()).concat(field_display_name(&field));
        groups.push(TaskGroup { label: fallback, tasks: no_value });
        assert(groups_view(groups@) =~= labelled.push(
            ("No "@ + display_name(field), tasks_with_key(inp, field, None)),
        ));
    }
    proof {
        let g = groups_view(groups@);
        assert forall|m: int| 0 <= m < kv.len() implies #[trigger] g[m] == (
            group_label(field, kv[m]),
            tasks_with_key(inp, field, Some(kv[m])),
        ) by {
            assert(g[m] == labelled[m]);
        }
        assert(keyed_groups(g, inp, directive, kv, keyed_count(g.len() as int, inp, field)));
    }
    groups
}

/// The groups of the tasks under the list's group directives.
pub fn group(list: &SmartList, tasks: &[StoredTask]) -> (r: Vec<TaskGroup>)
    ensures
        list.group_directives@.len() == 0 ==> groups_view(r@) == seq![(Seq::<char>::empty(), stored_view(tasks@))],
        list.group_directives@.len() > 0 ==> is_grouping(
            groups_view(r@),
            stored_view(tasks@),
            list.group_directives@[0],
        ),
{
    group_by_directives(list.group_directives.as_slice(), tasks)
}

// ── Checking that evaluation can run ─────────────────────────────────────────

fn condition_can_run(cond: &Condition, task: &Task, today: &str) -> (r: bool)
    ensures
        r == condition_ok(cond@, task@, today@),
{
    match cond {
        Condition::DateComparison { field, op, offset } => {
            if date_field_value(task, *field).is_none() {
                return true;
            }
            proof {
                assert(today.spec_bytes() == encode_utf8(today@));
            }
            add_days_can_run(today, *offset)
        },
        _ => true,
    }
}

fn block_can_run(conds: &Vec<Condition>, task: &Task, today: &str) -> (r: bool)
    ensures
        r == all_ok(conds_view(conds@), task@, today@),
{
    let ghost cs = conds_view(conds@);
    let mut i: usize = 0;
    assert(cs.skip(0) =~= cs);
    while i < conds.len()
        invariant
            i <= conds@.len(),
            cs == conds_view(conds@),
            all_ok(cs, task@, today@) == all_ok(cs.skip(i as int), task@, today@),
        decreases conds@.len() - i,
    {
        assert(cs.skip(i as int)[0] == cs[i as int]);
        assert(cs.skip(i as int).drop_first() =~= cs.skip(i + 1));
        if !condition_can_run(&conds[i], task, today) {
            return false;
        }
        if !eval_condition(&conds[i], task, today) {
            return true;
        }
        i = i + 1;
    }
    true
}

fn blocks_can_run(blocks: &Vec<FilterBlock>, task: &Task, today: &str) -> (r: bool)
    ensures
        r == blocks_ok(blocks_view(blocks@), task@, today@),
{
    let ghost bs = blocks_view(blocks@);
    let mut i: usize = 0;
    assert(bs.skip(0) =~= bs);
    while i < blocks.len()
        invariant
            i <= blocks@.len(),
            bs == blocks_view(blocks@),
            blocks_ok(bs, task@, today@) == blocks_ok(bs.skip(i as int), task@, today@),
        decreases blocks@.len() - i,
    {
        assert(bs.skip(i as int)[0] == bs[i as int]);
        assert(bs.skip(i as int).drop_first() =~= bs.skip(i + 1));
        if !block_can_run(&blocks[i].conditions, task, today) {
            return false;
        }
        if block_holds(&blocks[i].conditions, task, today) {
            return true;
        }
        i = i + 1;
    }
    true
}

/// Whether evaluating the list on each of the tasks can run: no date
/// comparison that is reached shifts `today` out of range.
pub fn list_can_run(list: &SmartList, tasks: &[StoredTask], today: &str) -> (r: bool)
    ensures
        r == list_ok(*list, tasks@, today@),
{
    let ghost bs = blocks_view(list.blocks@);
    let ghost sv = stored_view(tasks@);
    if list.blocks.len() == 0 {
        return true;
    }
    let implied_not_done = !has_done_filter(list);
    let mut i: usize = 0;
    while i < tasks.len()
        invariant
            i <= tasks@.len(),
            bs == blocks_view(list.blocks@),
            bs.len() > 0,
            sv == stored_view(tasks@),
            implied_not_done == !has_done_condition(bs),
            forall|j: int| 0 <= j < i ==> select_ok(bs, (#[trigger] sv[j]).task, today@),
        decreases tasks@.len() - i,
    {
        assert(sv[i as int] == tasks@[i as int]@);
        if !(implied_not_done && tasks[i].task.done) && !blocks_can_run(
            &list.blocks,
            &tasks[i].task,
            today,
        ) {
            return false;
        }
        i = i + 1;
    }
    true
}

// ── Laws of conditions, sorting and grouping ────────────────────────────────

/// What a comparison word says of the order `o` of the task's date against
/// the target: `=` the same day, `<` before, `<=` before or the same,
/// `>` after, `>=` after or the same.
pub open spec fn order_word_says(w: Seq<char>, o: Order) -> bool {
    ||| w == "="@ && o == Order::Equal
    ||| w == "<"@ && o == Order::Less
    ||| w == "<="@ && (o == Order::Less || o == Order::Equal)
    ||| w == ">"@ && o == Order::Greater
    ||| w == ">="@ && (o == Order::Greater || o == Order::Equal)
}

/// Each of the five comparison words is read as an operator, and the
/// operator holds of an order exactly when the word says so.
pub proof fn law_compare_op_words(w: Seq<char>, o: Order)
    ensures
        (w == "="@ || w == "<"@ || w == "<="@ || w == ">"@ || w == ">="@) ==> spec_compare_op(w) is Some,
        spec_compare_op(w) matches Some(op) ==> (compare_holds(op, o) <==> order_word_says(w, o)),
{
    reveal_strlit("=");
    reveal_strlit("<");
    reveal_strlit("<=");
    reveal_strlit(">");
    reveal_strlit(">=");
    assert("="@.len() == 1 && "<"@.len() == 1 && ">"@.len() == 1);
    assert("<="@.len() == 2 && ">="@.len() == 2);
    assert("="@[0] != "<"@[0] && "="@[0] != ">"@[0] && "<"@[0] != ">"@[0]);
    assert("<="@[0] != ">="@[0]);
}

/// A condition line `field word date` holds for a task exactly when the
/// task has that date and it stands to `today` shifted by the offset as the
/// word says: a task due today meets `due >= today` and not `due > today`.
pub proof fn law_date_condition_words(line: Seq<char>, t: TaskView, today: Seq<char>)
    requires
        spec_parse_condition(line) matches Some(CondSpec::DateComparison { .. }),
    ensures
        ({
            let c = spec_parse_condition(line)->0;
            let w = (split3(line)->0).1;
            condition_holds(c, t, today) <==> (date_value(t, c->DateComparison_field) matches Some(d)
                && order_word_says(
                w,
                str_order(d, spec_add_days(encode_utf8(today), c->DateComparison_offset as int)),
            ))
        }),
{
    let c = spec_parse_condition(line)->0;
    let w = (split3(line)->0).1;
    match date_value(t, c->DateComparison_field) {
        Some(d) => {
            law_compare_op_words(w, str_order(d, spec_add_days(encode_utf8(today), c->DateComparison_offset as int)));
        },
        None => {},
    }
}

/// What a priority word says of a task's priority `p` against the letter:
/// `=` the same letter, `above` an earlier letter, `below` a later one.
pub open spec fn priority_word_says(w: Seq<char>, p: char, letter: char) -> bool {
    ||| w == "="@ && p == letter
    ||| w == "above"@ && p < letter
    ||| w == "below"@ && letter < p
}

/// A condition line `priority word letter` holds for a task exactly when
/// the task has a priority that stands to the letter as the word says: a
/// task of priority B does not meet `priority below B`.
pub proof fn law_priority_condition_words(line: Seq<char>, t: TaskView, today: Seq<char>)
    requires
        spec_parse_condition(line) matches Some(CondSpec::PriorityComparison { .. }),
    ensures
        ({
            let c = spec_parse_condition(line)->0;
            let w = (split3(line)->0).1;
            condition_holds(c, t, today) <==> (t.priority matches Some(p) && priority_word_says(
                w,
                p,
                c->PriorityComparison_letter,
            ))
        }),
{
    reveal_strlit("=");
    reveal_strlit("above");
    reveal_strlit("below");
    assert("="@.len() == 1 && "above"@.len() == 5 && "below"@.len() == 5);
    assert("above"@[0] != "below"@[0]);
    let parts = split3(line)->0;
    assert(spec_priority_op(parts.1) is Some);
}

/// A list of the one condition `priority op letter` keeps exactly the open
/// tasks whose priority is the letter (`Eq`), an earlier letter (`Above`)
/// or a later one (`Below`); a task without a priority is never kept.
pub proof fn law_priority_list(
    list: SmartList,
    tasks: Seq<StoredView>,
    today: Seq<char>,
    op: PriorityOp,
    letter: char,
)
    requires
        blocks_view(list.blocks@) == seq![seq![CondSpec::PriorityComparison { op, letter }]],
    ensures
        selected(list, tasks, today) == tasks.filter(
            |x: StoredView|
                !x.task.done && (x.task.priority matches Some(p) && match op {
                    PriorityOp::Eq => p == letter,
                    PriorityOp::Above => p < letter,
                    PriorityOp::Below => letter < p,
                }),
        ),
{
    let blocks = blocks_view(list.blocks@);
    let c = CondSpec::PriorityComparison { op, letter };
    assert(!has_done_condition(blocks)) by {
        if has_done_condition(blocks) {
            let (i, j) = choose|i: int, j: int|
                0 <= i < blocks.len() && 0 <= j < blocks[i].len() && (#[trigger] blocks[i][j]) is DoneFilter;
            assert(blocks[i][j] == c);
        }
    }
    let p1 = |x: StoredView| selects(blocks, x.task, today);
    let p2 = |x: StoredView|
        !x.task.done && (x.task.priority matches Some(p) && match op {
            PriorityOp::Eq => p == letter,
            PriorityOp::Above => p < letter,
            PriorityOp::Below => letter < p,
        });
    assert forall|x: StoredView| #[trigger] p1(x) == p2(x) by {
        if some_block_holds(blocks, x.task, today) {
            let i = choose|i: int| 0 <= i < blocks.len() && all_hold(#[trigger] blocks[i], x.task, today);
            assert(condition_holds(blocks[0][0], x.task, today));
        }
        if condition_holds(c, x.task, today) {
            assert(all_hold(blocks[0], x.task, today));
        }
    }
    assert(p1 =~= p2);
}

/// The date, sort and group value of a task for `due`, `scheduled` and
/// `starting` is the value of its tag of that name, and it has none exactly
/// when no tag has that name.
pub proof fn law_tag_fields(t: TaskView, v: Seq<char>)
    requires
        t.well_formed(),
    ensures
        (sort_key(t, Field::Due) == Some(v)) <==> t.tags.contains(("due"@, v)),
        (sort_key(t, Field::Scheduled) == Some(v)) <==> t.tags.contains(("scheduled"@, v)),
        (sort_key(t, Field::Starting) == Some(v)) <==> t.tags.contains(("starting"@, v)),
        (group_key(t, Field::Due) == Some(v)) <==> t.tags.contains(("due"@, v)),
        (group_key(t, Field::Scheduled) == Some(v)) <==> t.tags.contains(("scheduled"@, v)),
        (group_key(t, Field::Starting) == Some(v)) <==> t.tags.contains(("starting"@, v)),
        (date_value(t, DateField::Due) == Some(v)) <==> t.tags.contains(("due"@, v)),
        (date_value(t, DateField::Scheduled) == Some(v)) <==> t.tags.contains(("scheduled"@, v)),
        (date_value(t, DateField::Starting) == Some(v)) <==> t.tags.contains(("starting"@, v)),
        has_field(t, Field::Due) <==> exists|w: Seq<char>| t.tags.contains(("due"@, w)),
        has_field(t, Field::Scheduled) <==> exists|w: Seq<char>| t.tags.contains(("scheduled"@, w)),
        has_field(t, Field::Starting) <==> exists|w: Seq<char>| t.tags.contains(("starting"@, w)),
        group_key(t, Field::Due) is None <==> forall|w: Seq<char>| !t.tags.contains(("due"@, w)),
        group_key(t, Field::Scheduled) is None <==> forall|w: Seq<char>|
            !t.tags.contains(("scheduled"@, w)),
        group_key(t, Field::Starting) is None <==> forall|w: Seq<char>|
            !t.tags.contains(("starting"@, w)),
{
    lemma_tag_value_contains(t.tags, "due"@, v);
    lemma_tag_value_contains(t.tags, "scheduled"@, v);
    lemma_tag_value_contains(t.tags, "starting"@, v);
    assert forall|w: Seq<char>| #![auto] group_key(t, Field::Due) is None ==> !t.tags.contains(("due"@, w)) by {
        lemma_tag_value_contains(t.tags, "due"@, w);
    }
    assert forall|w: Seq<char>| #![auto] group_key(t, Field::Scheduled) is None ==> !t.tags.contains(("scheduled"@, w)) by {
        lemma_tag_value_contains(t.tags, "scheduled"@, w);
    }
    assert forall|w: Seq<char>| #![auto] group_key(t, Field::Starting) is None ==> !t.tags.contains(("starting"@, w)) by {
        lemma_tag_value_contains(t.tags, "starting"@, w);
    }
    if let Some(w) = group_key(t, Field::Due) {
        lemma_tag_value_contains(t.tags, "due"@, w);
    }
    if let Some(w) = group_key(t, Field::Scheduled) {
        lemma_tag_value_contains(t.tags, "scheduled"@, w);
    }
    if let Some(w) = group_key(t, Field::Starting) {
        lemma_tag_value_contains(t.tags, "starting"@, w);
    }
}

/// Whether `name` is the tag that holds the dated field `f`.
pub open spec fn tag_field(f: Field, name: Seq<char>) -> bool {
    ||| f == Field::Due && name == "due"@
    ||| f == Field::Scheduled && name == "scheduled"@
    ||| f == Field::Starting && name == "starting"@
}

/// Sorting by a dated field orders tasks by the value of their tag of that
/// name: of two tasks that both have the tag, the earlier one in the result
/// has the value that sorts first (ascending) or last (descending), whatever
/// their other tags.
pub proof fn law_sorted_by_tag(
    out: Seq<StoredView>,
    inp: Seq<StoredView>,
    dirs: Seq<Directive>,
    name: Seq<char>,
    i: int,
    j: int,
    vi: Seq<char>,
    vj: Seq<char>,
)
    requires
        is_stable_sort(out, inp, dirs),
        dirs.len() > 0,
        tag_field(dirs[0].field, name),
        0 <= i < j < out.len(),
        out[i].task.well_formed(),
        out[j].task.well_formed(),
        out[i].task.tags.contains((name, vi)),
        out[j].task.tags.contains((name, vj)),
    ensures
        dirs[0].direction == Direction::Asc ==> str_order(vi, vj) != Order::Greater,
        dirs[0].direction == Direction::Desc ==> str_order(vi, vj) != Order::Less,
{
    law_tag_fields(out[i].task, vi);
    law_tag_fields(out[j].task, vj);
    assert(task_order(out[i].task, out[j].task, dirs) != Order::Greater);
}

/// Grouping by a dated field puts a task that has the tag of that name in
/// the group labelled with the tag's value, and a task without one in the
/// field's `No` group.
pub proof fn law_grouped_by_tag(
    r: Seq<(Seq<char>, Seq<StoredView>)>,
    inp: Seq<StoredView>,
    d: Directive,
    name: Seq<char>,
    j: int,
    x: StoredView,
    v: Seq<char>,
)
    requires
        is_grouping(r, inp, d),
        tag_field(d.field, name),
        0 <= j < r.len(),
        r[j].1.contains(x),
        x.task.well_formed(),
    ensures
        x.task.tags.contains((name, v)) ==> r[j].0 == group_label(d.field, v),
        (forall|w: Seq<char>| !x.task.tags.contains((name, w))) ==> r[j].0 == "No "@ + name,
{
    broadcast use vstd::seq_lib::group_filter_ensures;

    let f = d.field;
    let m = keyed_count(r.len() as int, inp, f);
    let keys = choose|keys: Seq<Seq<char>>| #[trigger] keyed_groups(r, inp, d, keys, m);
    law_tag_fields(x.task, v);
    let k = choose|k: int| 0 <= k < r[j].1.len() && r[j].1[k] == x;
    if j < m {
        assert(r[j] == (group_label(f, keys[j]), tasks_with_key(inp, f, Some(keys[j]))));
        assert(key_is(f, Some(keys[j]))(r[j].1[k]));
        assert(group_key(x.task, f) == Some(keys[j]));
        law_tag_fields(x.task, keys[j]);
    } else {
        assert(r[j] == ("No "@ + display_name(f), tasks_with_key(inp, f, None)));
        assert(key_is(f, None)(r[j].1[k]));
        assert(group_key(x.task, f) is None);
    }
}

/// The words `done` and `not done` are conditions that hold of done and of
/// open tasks.
pub proof fn law_done_words(t: TaskView, today: Seq<char>)
    ensures
        spec_parse_condition("done"@) is Some,
        spec_parse_condition("not done"@) is Some,
        condition_holds(spec_parse_condition("done"@)->0, t, today) <==> t.done,
        condition_holds(spec_parse_condition("not done"@)->0, t, today) <==> !t.done,
{
    reveal_strlit("done");
    reveal_strlit("not done");
    assert("done"@.len() == 4 && "not done"@.len() == 8);
}

/// A condition `has field` holds of the tasks that have a value for the
/// field and `no field` of those that have none.
pub proof fn law_existence_words(line: Seq<char>, t: TaskView, today: Seq<char>)
    requires
        spec_parse_condition(line) matches Some(CondSpec::Existence { .. }),
    ensures
        ({
            let c = spec_parse_condition(line)->0;
            condition_holds(c, t, today) <==> (has_field(t, c->Existence_field) <==> starts_with(
                line,
                "has "@,
            ))
        }),
{
    reveal_strlit("has ");
    reveal_strlit("no ");
    reveal_strlit("done");
    reveal_strlit("not done");
    if starts_with(line, "has "@) && starts_with(line, "no "@) {
        assert(line[0] == "has "@[0]);
        assert(line[0] == "no "@[0]);
    }
    if line == "done"@ {
        assert(!starts_with(line, "has "@)) by {
            if starts_with(line, "has "@) {
                assert(line[0] == "has "@[0]);
            }
        }
    }
}

/// A text condition looks for the text in the task, ignoring case: in the
/// description, or in some project or context; `excludes` holds exactly
/// when `includes` does not.
pub proof fn law_text_condition(t: TaskView, today: Seq<char>, f: TextField, text: Seq<char>)
    ensures
        condition_holds(CondSpec::TextMatch { field: f, op: TextOp::Excludes, text }, t, today)
            == !condition_holds(CondSpec::TextMatch { field: f, op: TextOp::Includes, text }, t, today),
        condition_holds(CondSpec::TextMatch { field: TextField::Description, op: TextOp::Includes, text }, t, today)
            <==> contains_seq(lowercase(t.description), lowercase(text)),
        condition_holds(CondSpec::TextMatch { field: TextField::Project, op: TextOp::Includes, text }, t, today)
            <==> exists|i: int| 0 <= i < t.projects.len() && contains_seq(lowercase(#[trigger] t.projects[i]), lowercase(text)),
        condition_holds(CondSpec::TextMatch { field: TextField::Context, op: TextOp::Includes, text }, t, today)
            <==> exists|i: int| 0 <= i < t.contexts.len() && contains_seq(lowercase(#[trigger] t.contexts[i]), lowercase(text)),
{
}

/// A list keeps a task exactly when the task is one of the tasks, all the
/// conditions of some block hold for it (`all_hold`), and it is open or the
/// list has a `done`/`not done` condition (`has_done_condition`).
pub proof fn law_selected_tasks(list: SmartList, tasks: Seq<StoredView>, today: Seq<char>, x: StoredView)
    ensures
        selected(list, tasks, today).contains(x) ==> tasks.contains(x),
        selected(list, tasks, today).contains(x) && x.task.done ==> has_done_condition(
            blocks_view(list.blocks@),
        ),
        selected(list, tasks, today).contains(x) ==> exists|i: int|
            0 <= i < blocks_view(list.blocks@).len() && all_hold(
                #[trigger] blocks_view(list.blocks@)[i],
                x.task,
                today,
            ),
        tasks.contains(x) && (exists|i: int|
            0 <= i < blocks_view(list.blocks@).len() && all_hold(
                #[trigger] blocks_view(list.blocks@)[i],
                x.task,
                today,
            )) && (x.task.done ==> has_done_condition(blocks_view(list.blocks@)))
            ==> selected(list, tasks, today).contains(x),
{
    broadcast use vstd::seq_lib::group_filter_ensures;

    let blocks = blocks_view(list.blocks@);
    let p = |y: StoredView| selects(blocks, y.task, today);
    if blocks.len() > 0 {
        if tasks.filter(p).contains(x) {
            tasks.lemma_filter_contains_rev(p, x);
            let k = choose|k: int| 0 <= k < tasks.filter(p).len() && tasks.filter(p)[k] == x;
            assert(p(tasks.filter(p)[k]));
        }
        if tasks.contains(x) && selects(blocks, x.task, today) {
            let k = choose|k: int| 0 <= k < tasks.len() && tasks[k] == x;
            tasks.lemma_filter_contains(p, k);
        }
    }
}

} // verus!
