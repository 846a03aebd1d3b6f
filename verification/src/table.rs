//! Laying tasks out as a table of text lines: one row of cells per task,
//! long cells wrapped onto further rows.

use crate::task::borrowed_views;
use crate::task::Task;
use crate::task::TaskView;
use crate::text::chars_of;
use crate::text::decimal;
use crate::text::join;
use crate::text::joined;
use crate::text::u32_to_string;
use vstd::prelude::*;
use vstd::relations::sorted_by;
use vstd::relations::total_ordering;
use vstd::string::*;
use vstd::utf8::decode_utf8;
use vstd::utf8::encode_utf8;
use vstd::utf8::is_ascii_chars;
use vstd::utf8::is_char_boundary;

verus! {

/// The width of the weight column.
pub const W_WEIGHT: usize = 6;

/// The width of the tag column.
pub const W_TAGS: usize = 20;

/// Whether `a` comes before `b`, or is `b`, in the order of the dictionary:
/// the first character in which they differ decides, by its code point, and
/// a text comes before each text that it begins.
pub open spec fn text_le(a: Seq<char>, b: Seq<char>) -> bool
    decreases a.len(),
{
    if a.len() == 0 {
        true
    } else if b.len() == 0 {
        false
    } else if a[0] != b[0] {
        a[0] < b[0]
    } else {
        text_le(a.drop_first(), b.drop_first())
    }
}

/// The order of the dictionary as a relation.
pub open spec fn text_order() -> spec_fn(Seq<char>, Seq<char>) -> bool {
    |a: Seq<char>, b: Seq<char>| text_le(a, b)
}

/// Every text is at or before itself.
pub proof fn lemma_text_le_reflexive(a: Seq<char>)
    ensures
        text_le(a, a),
    decreases a.len(),
{
    if a.len() > 0 {
        lemma_text_le_reflexive(a.drop_first());
    }
}

/// Of two texts one is at or before the other.
pub proof fn lemma_text_le_connected(a: Seq<char>, b: Seq<char>)
    ensures
        text_le(a, b) || text_le(b, a),
    decreases a.len(),
{
    if a.len() > 0 && b.len() > 0 && a[0] == b[0] {
        lemma_text_le_connected(a.drop_first(), b.drop_first());
    }
}

/// Two texts that are each at or before the other are one text.
pub proof fn lemma_text_le_antisymmetric(a: Seq<char>, b: Seq<char>)
    requires
        text_le(a, b),
        text_le(b, a),
    ensures
        a == b,
    decreases a.len(),
{
    if a.len() == 0 || b.len() == 0 {
        assert(a.len() == 0 && b.len() == 0);
        assert(a =~= b);
    } else {
        assert(a[0] == b[0]);
        let x = a.drop_first();
        let y = b.drop_first();
        lemma_text_le_antisymmetric(x, y);
        assert(a.len() == b.len());
        assert forall|i: int| 0 <= i < a.len() implies a[i] == b[i] by {
            if i > 0 {
                assert(a[i] == x[i - 1]);
                assert(b[i] == y[i - 1]);
            }
        }
        assert(a =~= b);
    }
}

/// What is at or before a text is at or before what that text is at or
/// before.
pub proof fn lemma_text_le_transitive(a: Seq<char>, b: Seq<char>, c: Seq<char>)
    requires
        text_le(a, b),
        text_le(b, c),
    ensures
        text_le(a, c),
    decreases a.len(),
{
    if a.len() > 0 && b.len() > 0 && c.len() > 0 && a[0] == b[0] && b[0] == c[0] {
        lemma_text_le_transitive(a.drop_first(), b.drop_first(), c.drop_first());
    }
}

/// The order of the dictionary is a total order.
pub proof fn lemma_text_order_total()
    ensures
        total_ordering(text_order()),
{
    let r = text_order();
    assert forall|a: Seq<char>| #[trigger] r(a, a) by {
        lemma_text_le_reflexive(a);
    }
    assert forall|a: Seq<char>, b: Seq<char>| #[trigger] r(a, b) && #[trigger] r(b, a) implies a
        == b by {
        lemma_text_le_antisymmetric(a, b);
    }
    assert forall|a: Seq<char>, b: Seq<char>, c: Seq<char>| #[trigger]
        r(a, b) && #[trigger] r(b, c) implies r(a, c) by {
        lemma_text_le_transitive(a, b, c);
    }
    assert forall|a: Seq<char>, b: Seq<char>| #[trigger] r(a, b) || #[trigger] r(b, a) by {
        lemma_text_le_connected(a, b);
    }
}

/// Whether `a` comes before `b`, or is `b`, in the order of the dictionary.
pub fn text_before(a: &str, b: &str) -> (r: bool)
    ensures
        r == text_le(a@, b@),
{
    let x = chars_of(a);
    let y = chars_of(b);
    let mut i: usize = 0;
    assert(a@.skip(0) =~= a@);
    assert(b@.skip(0) =~= b@);
    while i < x.len() && i < y.len()
        invariant
            i <= x.len(),
            i <= y.len(),
            x@ == a@,
            y@ == b@,
            text_le(a@, b@) == text_le(a@.skip(i as int), b@.skip(i as int)),
        decreases x.len() - i,
    {
        proof {
            assert(a@.skip(i as int)[0] == a@[i as int]);
            assert(b@.skip(i as int)[0] == b@[i as int]);
            assert(a@.skip(i as int).drop_first() =~= a@.skip(i + 1));
            assert(b@.skip(i as int).drop_first() =~= b@.skip(i + 1));
        }
        if x[i] != y[i] {
            return x[i] < y[i];
        }
        i += 1;
    }
    i == x.len()
}

/// The texts in the order of the dictionary.
pub fn sort_texts(texts: Vec<&str>) -> (r: Vec<&str>)
    ensures
        r.deep_view() == texts.deep_view().sort_by(text_order()),
{
    let ghost all = texts.deep_view();
    let mut out: Vec<&str> = Vec::new();
    let mut i: usize = 0;
    proof {
        assert(all.take(0) =~= Seq::empty());
        assert(out.deep_view() =~= Seq::empty());
    }
    while i < texts.len()
        invariant
            i <= texts.len(),
            all == texts.deep_view(),
            sorted_by(out.deep_view(), text_order()),
            out.deep_view().to_multiset() == all.take(i as int).to_multiset(),
        decreases texts.len() - i,
    {
        let text = texts[i];
        let mut at: usize = 0;
        while at < out.len() && text_before(out[at], text)
            invariant
                at <= out.len(),
                forall|j: int| 0 <= j < at ==> text_le(#[trigger] out.deep_view()[j], text@),
            decreases out.len() - at,
        {
            at += 1;
        }
        let ghost before = out.deep_view();
        out.insert(at, text);
        proof {
            let after = out.deep_view();
            assert(after =~= before.insert(at as int, text@));
            assert forall|a: int, b: int| 0 <= a < b < after.len() implies #[trigger] text_order()(
                after[a],
                after[b],
            ) by {
                if b < at {
                    assert(after[a] == before[a] && after[b] == before[b]);
                    assert(text_order()(before[a], before[b]));
                } else if b == at {
                    assert(after[a] == before[a]);
                } else if a == at {
                    assert(after[b] == before[b - 1]);
                    lemma_text_le_connected(before[at as int], text@);
                    if b - 1 > at {
                        assert(text_order()(before[at as int], before[b - 1]));
                        lemma_text_le_transitive(text@, before[at as int], before[b - 1]);
                    }
                } else if a < at {
                    assert(after[a] == before[a] && after[b] == before[b - 1]);
                    assert(text_order()(before[a], before[b - 1]));
                } else {
                    assert(after[a] == before[a - 1] && after[b] == before[b - 1]);
                    assert(text_order()(before[a - 1], before[b - 1]));
                }
            }
            vstd::seq_lib::to_multiset_insert(before, at as int, text@);
            assert(all.take(i + 1) =~= all.take(i as int).push(text@));
            vstd::seq_lib::to_multiset_build(all.take(i as int), text@);
        }
        i += 1;
    }
    proof {
        assert(all.take(texts.len() as int) =~= all);
        lemma_text_order_total();
        all.lemma_sort_by_ensures(text_order());
        vstd::seq_lib::lemma_sorted_unique(out.deep_view(), all.sort_by(text_order()), text_order());
    }
    out
}

/// The lines into which `textwrap::wrap` breaks a text at a width.
pub uninterp spec fn wrapped(text: Seq<char>, width: nat) -> Seq<Seq<char>>;

/// `textwrap::wrap` with a plain width: the lines into which the text is
/// broken, a function of the text and the width alone.
#[verifier::external_body]
fn wrap_text(text: &str, width: usize) -> (r: Vec<String>)
    ensures
        r.deep_view() == wrapped(text@, width as nat),
{
    textwrap::wrap(text, width).into_iter().map(|line| line.into_owned()).collect()
}

/// A run of `n` times the character `c`.
pub open spec fn run_of(c: char, n: int) -> Seq<char> {
    Seq::new(
        if n > 0 {
            n as nat
        } else {
            0
        },
        |i: int| c,
    )
}

/// `s` with spaces behind it up to `width` characters; `s` where it is that
/// long already.
pub open spec fn padded_end(s: Seq<char>, width: nat) -> Seq<char> {
    s + run_of(' ', width - s.len())
}

/// `s` with spaces before it up to `width` characters; `s` where it is that
/// long already.
pub open spec fn padded_start(s: Seq<char>, width: nat) -> Seq<char> {
    run_of(' ', width - s.len()) + s
}

/// `s` cut to fit `max_width` bytes: where it is longer, its first
/// `max_width - 2` bytes followed by two dots.
pub open spec fn truncated(s: Seq<char>, max_width: int) -> Seq<char> {
    if encode_utf8(s).len() > max_width {
        decode_utf8(encode_utf8(s).subrange(0, max_width - 2)) + seq!['.', '.']
    } else {
        s
    }
}

/// The line of a cell at a row: empty below the last line.
pub open spec fn cell(lines: Seq<Seq<char>>, i: int) -> Seq<char> {
    if 0 <= i < lines.len() {
        lines[i]
    } else {
        Seq::empty()
    }
}

/// The bar between two cells.
pub open spec fn bar() -> Seq<char> {
    seq![' ', '|', ' ']
}

/// One row of the table: the name and the description at their widths, the
/// weight set to the right, and the tags.
pub open spec fn row_text(
    name: Seq<char>,
    description: Seq<char>,
    weight: Seq<char>,
    tags: Seq<char>,
    w_name: nat,
    w_description: nat,
) -> Seq<char> {
    padded_end(name, w_name) + bar() + padded_end(description, w_description) + bar()
        + padded_start(weight, W_WEIGHT as nat) + bar() + padded_end(tags, W_TAGS as nat)
}

/// The row that names the columns.
pub open spec fn header_text(w_name: nat, w_description: nat) -> Seq<char> {
    row_text("NAME"@, "DESCRIPTION"@, "WEIGHT"@, "TAGS"@, w_name, w_description)
}

/// The greatest of three numbers.
pub open spec fn max3(a: int, b: int, c: int) -> int {
    if a >= b && a >= c {
        a
    } else if b >= c {
        b
    } else {
        c
    }
}

/// The rows of a task whose cells were broken into the given lines: as many
/// rows as the longest cell has lines, the weight on the first row only.
pub open spec fn rows_of(
    names: Seq<Seq<char>>,
    descriptions: Seq<Seq<char>>,
    tags: Seq<Seq<char>>,
    weight: u32,
    w_name: nat,
    w_description: nat,
) -> Seq<Seq<char>> {
    Seq::new(
        max3(names.len() as int, descriptions.len() as int, tags.len() as int) as nat,
        |i: int|
            row_text(
                cell(names, i),
                cell(descriptions, i),
                if i == 0 {
                    truncated(decimal(weight as nat), W_WEIGHT as int)
                } else {
                    Seq::empty()
                },
                cell(tags, i),
                w_name,
                w_description,
            ),
    )
}

/// The tags of a task as they stand in the tag column: in the order of the
/// dictionary, one space between each two.
pub open spec fn tag_cell(task: TaskView) -> Seq<char> {
    joined(task.tags.sort_by(text_order()), seq![' '])
}

/// The rows of a task: its name, its description and its tags, each broken
/// to the width of its column.
pub open spec fn task_rows(task: TaskView, w_name: nat, w_description: nat) -> Seq<Seq<char>> {
    rows_of(
        wrapped(task.name, w_name),
        wrapped(task.description, w_description),
        wrapped(tag_cell(task), W_TAGS as nat),
        task.weight,
        w_name,
        w_description,
    )
}

/// The rows of the tasks, a rule of `width` dashes under each task.
pub open spec fn body_text(tasks: Seq<TaskView>, width: nat, w_name: nat, w_description: nat) -> Seq<
    Seq<char>,
>
    decreases tasks.len(),
{
    if tasks.len() == 0 {
        Seq::empty()
    } else {
        body_text(tasks.drop_last(), width, w_name, w_description) + task_rows(
            tasks.last(),
            w_name,
            w_description,
        ) + seq![run_of('-', width as int)]
    }
}

/// The table: the header, a rule, and the rows of the tasks.
pub open spec fn table_text(tasks: Seq<TaskView>, width: nat, w_name: nat, w_description: nat)
    -> Seq<Seq<char>> {
    seq![header_text(w_name, w_description), run_of('-', width as int)] + body_text(
        tasks,
        width,
        w_name,
        w_description,
    )
}

/// A text of plain characters is cut by characters: where it is longer than
/// `max_width`, its first `max_width - 2` characters are followed by two
/// dots. Every place in it is a place between characters.
pub proof fn lemma_truncated_ascii(s: Seq<char>, max_width: int)
    requires
        is_ascii_chars(s),
        max_width >= 2,
    ensures
        encode_utf8(s).len() == s.len(),
        s.len() > max_width ==> is_char_boundary(encode_utf8(s), max_width - 2),
        truncated(s, max_width) == if s.len() > max_width {
            s.take(max_width - 2) + seq!['.', '.']
        } else {
            s
        },
{
    vstd::utf8::is_ascii_chars_encode_utf8(s);
    if s.len() > max_width {
        let bytes = encode_utf8(s);
        let k = max_width - 2;
        let head = s.take(k);
        assert(is_ascii_chars(head));
        vstd::utf8::is_ascii_chars_encode_utf8(head);
        assert(encode_utf8(head) =~= bytes.subrange(0, k)) by {
            assert forall|i: int| 0 <= i < k implies encode_utf8(head)[i] == bytes[i] by {
                assert(head[i] == s[i]);
                assert(head[i] as u8 == encode_utf8(head)[i]);
                assert(s[i] as u8 == bytes[i]);
            }
        }
        vstd::utf8::encode_utf8_decode_utf8(head);
        vstd::utf8::encode_utf8_valid_utf8(s);
        assert(s[k] as u8 == bytes[k]);
        assert('\0' <= s[k] <= '\u{7f}');
        assert(bytes[k] <= 0x7f);
        vstd::utf8::is_char_boundary_iff_is_leading_byte(bytes, k);
    }
}

/// A number written in decimal is made of plain characters.
pub proof fn lemma_decimal_ascii(n: nat)
    ensures
        is_ascii_chars(decimal(n)),
    decreases n,
{
    if n >= 10 {
        lemma_decimal_ascii(n / 10);
        let s = decimal(n);
        assert forall|i: int| 0 <= i < s.len() implies '\0' <= #[trigger] s[i] <= '\u{7f}' by {
            if i < s.len() - 1 {
                assert(s[i] == decimal(n / 10)[i]);
            }
        }
    }
}

/// `s` cut to fit `max_width` bytes.
pub fn truncate(s: &str, max_width: usize) -> (r: String)
    requires
        s.spec_bytes().len() > max_width ==> max_width >= 2 && is_char_boundary(
            s.spec_bytes(),
            max_width - 2,
        ),
    ensures
        r@ == truncated(s@, max_width as int),
{
    if s.as_bytes().len() > max_width {
        let (head, _) = s.split_at(max_width - 2);
        proof {
            reveal_strlit("..");
            assert(".."@ =~= seq!['.', '.']);
            vstd::utf8::encode_utf8_decode_utf8(head@);
            assert(head.spec_bytes() == encode_utf8(head@));
            assert(s.spec_bytes() == encode_utf8(s@));
            assert(encode_utf8(head@) == encode_utf8(s@).subrange(0, max_width - 2));
            assert(decode_utf8(encode_utf8(s@).subrange(0, max_width - 2)) == head@);
        }
        let mut out = String::from_str(head);
        out.append("..");
        assert(out@ == head@ + seq!['.', '.']);
        out
    } else {
        String::from_str(s)
    }
}

/// A run of `n` times a one-character piece.
fn repeated(piece: &str, n: usize) -> (r: String)
    requires
        piece@.len() == 1,
    ensures
        r@ == run_of(piece@[0], n as int),
{
    let mut out = String::new();
    let mut i: usize = 0;
    assert(out@ =~= run_of(piece@[0], 0));
    while i < n
        invariant
            i <= n,
            piece@.len() == 1,
            out@ == run_of(piece@[0], i as int),
        decreases n - i,
    {
        out.append(piece);
        assert(out@ =~= run_of(piece@[0], i + 1));
        i += 1;
    }
    out
}

/// A rule of `width` dashes.
pub fn rule(width: usize) -> (r: String)
    ensures
        r@ == run_of('-', width as int),
{
    proof {
        reveal_strlit("-");
    }
    repeated("-", width)
}

/// `s` with spaces behind it up to `width` characters.
pub fn pad_end(s: &str, width: usize) -> (r: String)
    ensures
        r@ == padded_end(s@, width as nat),
{
    proof {
        reveal_strlit(" ");
    }
    let n = s.unicode_len();
    let mut out = String::from_str(s);
    if n < width {
        out.append(repeated(" ", width - n).as_str());
    } else {
        assert(run_of(' ', width - n) =~= Seq::empty());
        assert(out@ =~= padded_end(s@, width as nat));
    }
    out
}

/// `s` with spaces before it up to `width` characters.
pub fn pad_start(s: &str, width: usize) -> (r: String)
    ensures
        r@ == padded_start(s@, width as nat),
{
    proof {
        reveal_strlit(" ");
    }
    let n = s.unicode_len();
    if n < width {
        let mut out = repeated(" ", width - n);
        out.append(s);
        out
    } else {
        assert(run_of(' ', width - n) =~= Seq::empty());
        let out = String::from_str(s);
        assert(out@ =~= padded_start(s@, width as nat));
        out
    }
}

/// One row of the table.
pub fn row(
    name: &str,
    description: &str,
    weight: &str,
    tags: &str,
    w_name: usize,
    w_description: usize,
) -> (r: String)
    ensures
        r@ == row_text(name@, description@, weight@, tags@, w_name as nat, w_description as nat),
{
    proof {
        reveal_strlit(" | ");
        assert(" | "@ =~= bar());
    }
    let mut out = pad_end(name, w_name);
    out.append(" | ");
    out.append(pad_end(description, w_description).as_str());
    out.append(" | ");
    out.append(pad_start(weight, W_WEIGHT).as_str());
    out.append(" | ");
    out.append(pad_end(tags, W_TAGS).as_str());
    out
}

/// The row that names the columns.
pub fn header(w_name: usize, w_description: usize) -> (r: String)
    ensures
        r@ == header_text(w_name as nat, w_description as nat),
{
    row("NAME", "DESCRIPTION", "WEIGHT", "TAGS", w_name, w_description)
}

/// The line of a cell at a row: empty below the last line.
fn cell_at(lines: &Vec<String>, i: usize) -> (r: String)
    ensures
        r@ == cell(lines.deep_view(), i as int),
{
    if i < lines.len() {
        lines[i].clone()
    } else {
        String::new()
    }
}

/// The rows of a task whose cells were broken into the given lines.
pub fn rows_from_lines(
    names: &Vec<String>,
    descriptions: &Vec<String>,
    tags: &Vec<String>,
    weight: u32,
    w_name: usize,
    w_description: usize,
) -> (r: Vec<String>)
    ensures
        r.deep_view() == rows_of(
            names.deep_view(),
            descriptions.deep_view(),
            tags.deep_view(),
            weight,
            w_name as nat,
            w_description as nat,
        ),
{
    let mut n = names.len();
    if descriptions.len() > n {
        n = descriptions.len();
    }
    if tags.len() > n {
        n = tags.len();
    }
    let ghost model = rows_of(
        names.deep_view(),
        descriptions.deep_view(),
        tags.deep_view(),
        weight,
        w_name as nat,
        w_description as nat,
    );
    let mut out: Vec<String> = Vec::new();
    let mut i: usize = 0;
    while i < n
        invariant
            i <= n,
            n == model.len(),
            model == rows_of(
                names.deep_view(),
                descriptions.deep_view(),
                tags.deep_view(),
                weight,
                w_name as nat,
                w_description as nat,
            ),
            out@.len() == i,
            forall|j: int| 0 <= j < i ==> (#[trigger] out@[j])@ == model[j],
        decreases n - i,
    {
        let weight_part = if i == 0 {
            let text = u32_to_string(weight);
            proof {
                lemma_decimal_ascii(weight as nat);
                lemma_truncated_ascii(text@, W_WEIGHT as int);
            }
            truncate(text.as_str(), W_WEIGHT)
        } else {
            String::new()
        };
        let line = row(
            cell_at(names, i).as_str(),
            cell_at(descriptions, i).as_str(),
            weight_part.as_str(),
            cell_at(tags, i).as_str(),
            w_name,
            w_description,
        );
        out.push(line);
        i += 1;
    }
    assert(out.deep_view() =~= model);
    out
}

/// The rows of a task.
pub fn rows_of_task(task: &Task, w_name: usize, w_description: usize) -> (r: Vec<String>)
    ensures
        r.deep_view() == task_rows(task@, w_name as nat, w_description as nat),
{
    proof {
        reveal_strlit(" ");
        assert(" "@ =~= seq![' ']);
    }
    let sorted = sort_texts(task.get_tags());
    let mut owned: Vec<String> = Vec::new();
    let mut i: usize = 0;
    while i < sorted.len()
        invariant
            i <= sorted.len(),
            owned@.len() == i,
            forall|j: int| 0 <= j < i ==> (#[trigger] owned@[j])@ == sorted.deep_view()[j],
        decreases sorted.len() - i,
    {
        owned.push(String::from_str(sorted[i]));
        i += 1;
    }
    assert(owned.deep_view() =~= sorted.deep_view());
    let tag_text = join(&owned, " ");
    let tag_lines = wrap_text(tag_text.as_str(), W_TAGS);
    let name_lines = wrap_text(task.get_name(), w_name);
    let description_lines = wrap_text(task.get_description(), w_description);
    rows_from_lines(
        &name_lines,
        &description_lines,
        &tag_lines,
        task.get_weight(),
        w_name,
        w_description,
    )
}

/// The table of the tasks as lines of text, `term_width` the width of the
/// rules and `w_name` and `w_description` the widths of the first two
/// columns.
pub fn task_table(tasks: &Vec<&Task>, term_width: usize, w_name: usize, w_description: usize) -> (r:
    Vec<String>)
    ensures
        r.deep_view() == table_text(
            borrowed_views(tasks@),
            term_width as nat,
            w_name as nat,
            w_description as nat,
        ),
{
    let ghost all = borrowed_views(tasks@);
    let mut out: Vec<String> = Vec::new();
    out.push(header(w_name, w_description));
    out.push(rule(term_width));
    let ghost top = seq![
        header_text(w_name as nat, w_description as nat),
        run_of('-', term_width as int),
    ];
    assert(out.deep_view() =~= top);
    let mut i: usize = 0;
    assert(all.take(0) =~= Seq::empty());
    while i < tasks.len()
        invariant
            i <= tasks.len(),
            all == borrowed_views(tasks@),
            out.deep_view() == top + body_text(
                all.take(i as int),
                term_width as nat,
                w_name as nat,
                w_description as nat,
            ),
        decreases tasks.len() - i,
    {
        let rows = rows_of_task(tasks[i], w_name, w_description);
        let ghost before = out.deep_view();
        proof {
            let next = all.take(i + 1);
            assert(next.drop_last() =~= all.take(i as int));
            assert(next.last() == tasks@[i as int]@);
        }
        let mut j: usize = 0;
        while j < rows.len()
            invariant
                j <= rows.len(),
                out.deep_view() == before + rows.deep_view().take(j as int),
            decreases rows.len() - j,
        {
            let ghost was = out.deep_view();
            out.push(rows[j].clone());
            assert(out.deep_view() =~= was.push(rows@[j as int]@));
            assert(before + rows.deep_view().take(j + 1) =~= was.push(rows@[j as int]@));
            j += 1;
        }
        assert(rows.deep_view().take(rows.len() as int) =~= rows.deep_view());
        let ghost was = out.deep_view();
        out.push(rule(term_width));
        proof {
            assert(out.deep_view() =~= was.push(run_of('-', term_width as int)));
            let done = body_text(
                all.take(i as int),
                term_width as nat,
                w_name as nat,
                w_description as nat,
            );
            assert(out.deep_view() =~= top + (done + rows.deep_view() + seq![
                run_of('-', term_width as int),
            ]));
        }
        i += 1;
    }
    assert(all.take(tasks.len() as int) =~= all);
    out
}

/// The table of one task.
pub fn single_task_table(task: &Task, term_width: usize, w_name: usize, w_description: usize) -> (r:
    Vec<String>)
    ensures
        r.deep_view() == table_text(
            seq![task@],
            term_width as nat,
            w_name as nat,
            w_description as nat,
        ),
{
    let mut one: Vec<&Task> = Vec::new();
    one.push(task);
    assert(borrowed_views(one@) =~= seq![task@]);
    task_table(&one, term_width, w_name, w_description)
}

} // verus!
