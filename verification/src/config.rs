//! The startup-file rewrite: split text into lines, replace the first
//! `export PATH=` line (or insert one at the top), join the lines back.

use vstd::prelude::*;

use crate::strings::{
    split_char, lemma_split_no_sep, lemma_split_first_sep, str_starts_with,
};
use crate::pathlist::{
    lemma_deep_view_push, lemma_deep_view_insert_front, join_colon, join_paths,
};

verus! {

/// A line's trailing carriage return, if any, removed.
pub open spec fn strip_cr(s: Seq<char>) -> Seq<char> {
    if s.len() > 0 && s[s.len() - 1] == '\r' {
        s.drop_last()
    } else {
        s
    }
}

/// Every raw line's trailing carriage return removed.
pub open spec fn strip_all(l: Seq<Seq<char>>) -> Seq<Seq<char>> {
    l.map_values(|x: Seq<char>| strip_cr(x))
}

/// The lines of a file's text: split on '\n', a trailing '\r' removed from
/// each line, and no final empty line when the text is empty or ends in '\n'.
pub open spec fn lines_of(s: Seq<char>) -> Seq<Seq<char>> {
    let raw = split_char(s, '\n');
    let kept = if raw.last() == Seq::<char>::empty() {
        raw.drop_last()
    } else {
        raw
    };
    strip_all(kept)
}

/// The prefix that marks the line the rewrite replaces.
pub open spec fn export_prefix() -> Seq<char> {
    "export PATH="@
}

/// True of a line the rewrite replaces.
pub open spec fn is_export_line(line: Seq<char>) -> bool {
    export_prefix().is_prefix_of(line)
}

/// The line the rewrite writes: the new `PATH` value between quotes.
pub open spec fn export_line_of(path: Seq<char>) -> Seq<char> {
    "export PATH=\""@ + path + "\""@
}

pub open spec fn has_export_line(lines: Seq<Seq<char>>) -> bool {
    exists|i: int| 0 <= i < lines.len() && is_export_line(#[trigger] lines[i])
}

/// `lines` with the first export line replaced by the export of `path`;
/// all other lines verbatim.
pub open spec fn replace_first_export(lines: Seq<Seq<char>>, path: Seq<char>) -> Seq<Seq<char>>
    decreases lines.len(),
{
    if lines.len() == 0 {
        Seq::empty()
    } else if is_export_line(lines[0]) {
        seq![export_line_of(path)] + lines.drop_first()
    } else {
        seq![lines[0]] + replace_first_export(lines.drop_first(), path)
    }
}

/// The rewritten file, as lines: the first export line replaced, or a new
/// export line put first when no line matches.
pub open spec fn apply_export(lines: Seq<Seq<char>>, path: Seq<char>) -> Seq<Seq<char>> {
    if has_export_line(lines) {
        replace_first_export(lines, path)
    } else {
        seq![export_line_of(path)] + lines
    }
}

/// Lines joined back into file text, '\n' after each line.
pub open spec fn unlines(l: Seq<Seq<char>>) -> Seq<char>
    decreases l.len(),
{
    if l.len() == 0 {
        Seq::empty()
    } else {
        l[0] + seq!['\n'] + unlines(l.drop_first())
    }
}

/// The non-export lines of a file, in order.
pub open spec fn non_export_lines(lines: Seq<Seq<char>>) -> Seq<Seq<char>>
    decreases lines.len(),
{
    if lines.len() == 0 {
        Seq::empty()
    } else if is_export_line(lines[0]) {
        non_export_lines(lines.drop_first())
    } else {
        seq![lines[0]] + non_export_lines(lines.drop_first())
    }
}

/// How many export lines a file has.
pub open spec fn export_line_count(lines: Seq<Seq<char>>) -> nat
    decreases lines.len(),
{
    if lines.len() == 0 {
        0
    } else if is_export_line(lines[0]) {
        1 + export_line_count(lines.drop_first())
    } else {
        export_line_count(lines.drop_first())
    }
}

/// The written line is itself recognized as an export line.
pub proof fn lemma_export_line_is_export(path: Seq<char>)
    ensures
        is_export_line(export_line_of(path)),
{
    reveal_strlit("export PATH=");
    reveal_strlit("export PATH=\"");
    assert(export_prefix().len() == 12);
    assert(export_line_of(path).len() >= 13);
    assert(export_prefix() =~= export_line_of(path).subrange(0, 12)) by {
        assert(forall|j: int|
            0 <= j < 12 ==> export_line_of(path)[j] == "export PATH=\""@[j]);
    }
}

proof fn lemma_count_pos(lines: Seq<Seq<char>>)
    ensures
        has_export_line(lines) <==> export_line_count(lines) >= 1,
    decreases lines.len(),
{
    if lines.len() > 0 {
        lemma_count_pos(lines.drop_first());
        assert(forall|i: int|
            0 <= i < lines.drop_first().len() ==> lines.drop_first()[i] == lines[i + 1]);
        if is_export_line(lines[0]) {
            assert(has_export_line(lines));
        } else {
            if has_export_line(lines) {
                let w = choose|i: int| 0 <= i < lines.len() && is_export_line(lines[i]);
                assert(w > 0);
                assert(lines.drop_first()[w - 1] == lines[w]);
                assert(has_export_line(lines.drop_first()));
            }
            if has_export_line(lines.drop_first()) {
                let w = choose|i: int|
                    0 <= i < lines.drop_first().len() && is_export_line(lines.drop_first()[i]);
                assert(is_export_line(lines[w + 1]));
                assert(has_export_line(lines));
            }
        }
    }
}

proof fn lemma_replace_shape(lines: Seq<Seq<char>>, path: Seq<char>)
    requires
        has_export_line(lines),
    ensures
        non_export_lines(replace_first_export(lines, path)) == non_export_lines(lines),
        export_line_count(replace_first_export(lines, path)) == export_line_count(lines),
    decreases lines.len(),
{
    lemma_export_line_is_export(path);
    let e = export_line_of(path);
    if is_export_line(lines[0]) {
        let r = seq![e] + lines.drop_first();
        assert(r[0] == e);
        assert(r.drop_first() =~= lines.drop_first());
        assert(non_export_lines(r) == non_export_lines(lines.drop_first()));
        assert(export_line_count(r) == 1 + export_line_count(lines.drop_first()));
    } else {
        assert(forall|i: int|
            0 <= i < lines.drop_first().len() ==> lines.drop_first()[i] == lines[i + 1]);
        let w = choose|i: int| 0 <= i < lines.len() && is_export_line(lines[i]);
        assert(w > 0);
        assert(lines.drop_first()[w - 1] == lines[w]);
        assert(has_export_line(lines.drop_first()));
        lemma_replace_shape(lines.drop_first(), path);
        let r = seq![lines[0]] + replace_first_export(lines.drop_first(), path);
        assert(r[0] == lines[0]);
        assert(r.drop_first() =~= replace_first_export(lines.drop_first(), path));
        assert(non_export_lines(r) =~= seq![lines[0]] + non_export_lines(
            replace_first_export(lines.drop_first(), path),
        ));
        assert(non_export_lines(lines) =~= seq![lines[0]] + non_export_lines(lines.drop_first()));
    }
}

/// The rewrite keeps every non-export line verbatim and in order, and its
/// output holds exactly one export line — given at most one on input, as a
/// well-formed startup file has.
pub proof fn lemma_apply_export_shape(lines: Seq<Seq<char>>, path: Seq<char>)
    requires
        export_line_count(lines) <= 1,
    ensures
        non_export_lines(apply_export(lines, path)) == non_export_lines(lines),
        export_line_count(apply_export(lines, path)) == 1,
{
    lemma_export_line_is_export(path);
    lemma_count_pos(lines);
    let e = export_line_of(path);
    if has_export_line(lines) {
        lemma_replace_shape(lines, path);
    } else {
        let r = seq![e] + lines;
        assert(r[0] == e);
        assert(r.drop_first() =~= lines);
        assert(non_export_lines(r) == non_export_lines(lines));
        assert(export_line_count(r) == 1 + export_line_count(lines));
    }
}

proof fn lemma_replace_push_found(a: Seq<Seq<char>>, x: Seq<char>, path: Seq<char>)
    requires
        has_export_line(a),
    ensures
        replace_first_export(a.push(x), path) == replace_first_export(a, path).push(x),
    decreases a.len(),
{
    let p = a.push(x);
    assert(p[0] == a[0]);
    assert(p.drop_first() =~= a.drop_first().push(x));
    if is_export_line(a[0]) {
        assert(replace_first_export(p, path) =~= (seq![export_line_of(path)]
            + a.drop_first()).push(x));
    } else {
        assert(forall|i: int| 0 <= i < a.drop_first().len() ==> a.drop_first()[i] == a[i + 1]);
        let w = choose|i: int| 0 <= i < a.len() && is_export_line(a[i]);
        assert(w > 0);
        assert(a.drop_first()[w - 1] == a[w]);
        assert(has_export_line(a.drop_first()));
        lemma_replace_push_found(a.drop_first(), x, path);
        assert(replace_first_export(p, path) =~= (seq![a[0]] + replace_first_export(
            a.drop_first(),
            path,
        )).push(x));
    }
}

proof fn lemma_replace_push_new(a: Seq<Seq<char>>, x: Seq<char>, path: Seq<char>)
    requires
        !has_export_line(a),
    ensures
        is_export_line(x) ==> replace_first_export(a.push(x), path) == a.push(export_line_of(path)),
        !is_export_line(x) ==> replace_first_export(a.push(x), path) == a.push(x),
    decreases a.len(),
{
    let p = a.push(x);
    if a.len() == 0 {
        assert(p[0] == x);
        assert(p.drop_first() =~= Seq::<Seq<char>>::empty());
        if is_export_line(x) {
            assert(replace_first_export(p, path) =~= a.push(export_line_of(path)));
        } else {
            assert(replace_first_export(p, path) =~= seq![x] + replace_first_export(
                Seq::<Seq<char>>::empty(),
                path,
            ));
            assert(replace_first_export(p, path) =~= a.push(x));
        }
    } else {
        assert(p[0] == a[0]);
        assert(p.drop_first() =~= a.drop_first().push(x));
        assert(!is_export_line(a[0]));
        assert(!has_export_line(a.drop_first())) by {
            assert(forall|i: int| 0 <= i < a.drop_first().len() ==> a.drop_first()[i] == a[i + 1]);
        }
        lemma_replace_push_new(a.drop_first(), x, path);
        if is_export_line(x) {
            assert(replace_first_export(p, path) =~= (seq![a[0]] + a.drop_first().push(
                export_line_of(path),
            )));
            assert(seq![a[0]] + a.drop_first().push(export_line_of(path)) =~= a.push(
                export_line_of(path),
            ));
        } else {
            assert(replace_first_export(p, path) =~= seq![a[0]] + a.drop_first().push(x));
            assert(seq![a[0]] + a.drop_first().push(x) =~= a.push(x));
        }
    }
}

proof fn lemma_unlines_push(a: Seq<Seq<char>>, x: Seq<char>)
    ensures
        unlines(a.push(x)) == unlines(a) + x + seq!['\n'],
    decreases a.len(),
{
    let p = a.push(x);
    if a.len() == 0 {
        assert(p[0] == x);
        assert(p.drop_first() =~= Seq::<Seq<char>>::empty());
        assert(unlines(p) == x + seq!['\n'] + unlines(Seq::<Seq<char>>::empty()));
        assert(x + seq!['\n'] + Seq::<char>::empty() =~= Seq::<char>::empty() + x + seq!['\n']);
    } else {
        assert(p[0] == a[0]);
        assert(p.drop_first() =~= a.drop_first().push(x));
        lemma_unlines_push(a.drop_first(), x);
        assert(a[0] + seq!['\n'] + (unlines(a.drop_first()) + x + seq!['\n']) =~= (a[0] + seq!['\n']
            + unlines(a.drop_first())) + x + seq!['\n']);
    }
}

/// Does the rewrite recognize this line as the one to replace?
pub fn line_is_export(line: &str) -> (r: bool)
    ensures
        r == is_export_line(line@),
{
    str_starts_with(line, "export PATH=")
}

/// Build the replacement line `export PATH="<new_path>"`.
pub fn make_export_line(new_path: &str) -> (r: String)
    ensures
        r@ == export_line_of(new_path@),
{
    let mut r: String = "export PATH=\"".to_owned();
    r.append(new_path);
    r.append("\"");
    r
}

/// Replace the first `export PATH=` line of `lines` with the export of
/// `new_path`, keeping every other line; when no line matches, put the new
/// export line first.
pub fn apply_path_export(lines: &Vec<String>, new_path: &str) -> (r: Vec<String>)
    ensures
        r.deep_view() == apply_export(lines.deep_view(), new_path@),
{
    let n: usize = lines.len();
    let mut out: Vec<String> = Vec::new();
    let mut found = false;
    let mut i: usize = 0;
    proof {
        assert(out.deep_view() =~= lines.deep_view().take(0));
    }
    while i < n
        invariant
            n == lines@.len(),
            i <= n,
            found == has_export_line(lines.deep_view().take(i as int)),
            found ==> out.deep_view() == replace_first_export(
                lines.deep_view().take(i as int),
                new_path@,
            ),
            !found ==> out.deep_view() == lines.deep_view().take(i as int),
        decreases n - i,
    {
        let ghost d = lines.deep_view();
        let ghost t = d.take(i as int);
        let ghost out0 = out;
        proof {
            assert(d.take(i + 1) =~= t.push(d[i as int]));
        }
        if !found && line_is_export(lines[i].as_str()) {
            let el = make_export_line(new_path);
            let ghost x = el;
            out.push(el);
            found = true;
            proof {
                lemma_deep_view_push(out0, out, x);
                lemma_replace_push_new(t, d[i as int], new_path@);
                assert(d.take(i + 1)[i as int] == d[i as int]);
                assert(has_export_line(d.take(i + 1)));
            }
        } else {
            let kept = lines[i].clone();
            let ghost x = kept;
            out.push(kept);
            proof {
                lemma_deep_view_push(out0, out, x);
                assert(x@ == d[i as int]);
                if found {
                    lemma_replace_push_found(t, d[i as int], new_path@);
                } else {
                    assert(!is_export_line(d[i as int]));
                    assert(!has_export_line(d.take(i + 1))) by {
                        if has_export_line(d.take(i + 1)) {
                            let w = choose|k: int|
                                0 <= k < d.take(i + 1).len() && is_export_line(
                                    #[trigger] d.take(i + 1)[k],
                                );
                            if w < i {
                                assert(t[w] == d.take(i + 1)[w]);
                                assert(has_export_line(t));
                            } else {
                                assert(d.take(i + 1)[w] == d[i as int]);
                            }
                        }
                    }
                }
            }
        }
        i = i + 1;
    }
    proof {
        assert(lines.deep_view().take(n as int) =~= lines.deep_view());
    }
    if !found {
        let el = make_export_line(new_path);
        let ghost x = el;
        let ghost out0 = out;
        out.insert(0, el);
        proof {
            lemma_deep_view_insert_front(out0, out, x);
        }
    }
    out
}

/// The lines of `content`: split on '\n', a trailing '\r' removed from each
/// line, no final empty line when the text is empty or ends in '\n'.
pub fn split_lines(content: &str) -> (r: Vec<String>)
    ensures
        r.deep_view() == lines_of(content@),
{
    let n: usize = content.unicode_len();
    let mut out: Vec<String> = Vec::new();
    let ghost mut raw: Seq<Seq<char>> = Seq::empty();
    let mut start: usize = 0;
    let mut i: usize = 0;
    proof {
        assert(content@.subrange(0, n as int) =~= content@);
        assert(Seq::<Seq<char>>::empty() + split_char(content@, '\n') =~= split_char(
            content@,
            '\n',
        ));
        assert(out.deep_view() =~= strip_all(raw));
    }
    while i < n
        invariant
            n == content@.len(),
            start <= i <= n,
            split_char(content@, '\n') == raw + split_char(
                content@.subrange(start as int, n as int),
                '\n',
            ),
            out.deep_view() == strip_all(raw),
            forall|j: int| start <= j < i ==> content@[j] != '\n',
        decreases n - i,
    {
        let c = content.get_char(i);
        if c == '\n' {
            let end: usize = if i > start && content.get_char(i - 1) == '\r' {
                i - 1
            } else {
                i
            };
            let seg = content.substring_char(start, end);
            let owned: String = seg.to_owned();
            let ghost x = owned;
            let ghost out0 = out;
            out.push(owned);
            proof {
                let ghost piece = content@.subrange(start as int, i as int);
                assert(x@ == strip_cr(piece)) by {
                    if i > start && content@[i - 1] == '\r' {
                        assert(piece.len() > 0);
                        assert(piece[piece.len() - 1] == content@[i - 1]);
                        assert(piece.drop_last() =~= content@.subrange(start as int, i - 1));
                    } else {
                        if piece.len() > 0 {
                            assert(piece[piece.len() - 1] == content@[i - 1]);
                        }
                    }
                }
                let ghost suffix = content@.subrange(start as int, n as int);
                assert(forall|k: int| 0 <= k < suffix.len() ==> suffix[k] == content@[start + k]);
                assert(suffix[i - start] == '\n');
                lemma_split_first_sep(suffix, '\n', i - start);
                assert(suffix.take(i - start) =~= piece);
                assert(suffix.skip(i - start + 1) =~= content@.subrange(i + 1, n as int));
                assert(raw + (seq![piece] + split_char(content@.subrange(i + 1, n as int), '\n'))
                    =~= raw.push(piece) + split_char(content@.subrange(i + 1, n as int), '\n'));
                lemma_deep_view_push(out0, out, x);
                assert(out.deep_view() =~= strip_all(raw.push(piece)));
                raw = raw.push(piece);
            }
            start = i + 1;
        }
        i = i + 1;
    }
    let ghost suffix = content@.subrange(start as int, n as int);
    proof {
        assert(forall|k: int| 0 <= k < suffix.len() ==> suffix[k] == content@[start + k]);
        assert(!suffix.contains('\n'));
        lemma_split_no_sep(suffix, '\n');
    }
    if start < n {
        let end: usize = if content.get_char(n - 1) == '\r' {
            n - 1
        } else {
            n
        };
        let seg = content.substring_char(start, end);
        let owned: String = seg.to_owned();
        let ghost x = owned;
        let ghost out0 = out;
        out.push(owned);
        proof {
            assert(x@ == strip_cr(suffix)) by {
                assert(suffix.len() > 0);
                assert(suffix[suffix.len() - 1] == content@[n - 1]);
                if content@[n - 1] == '\r' {
                    assert(suffix.drop_last() =~= content@.subrange(start as int, n - 1));
                }
            }
            lemma_deep_view_push(out0, out, x);
            let ghost rawf = raw.push(suffix);
            assert(split_char(content@, '\n') =~= rawf);
            assert(rawf.last() == suffix);
            assert(suffix.len() > 0);
            assert(suffix != Seq::<char>::empty());
            assert(out.deep_view() =~= strip_all(rawf));
            assert(lines_of(content@) == strip_all(rawf));
        }
    } else {
        proof {
            assert(suffix =~= Seq::<char>::empty());
            let ghost rawf = raw.push(Seq::<char>::empty());
            assert(seq![Seq::<char>::empty()][0] == Seq::<char>::empty());
            assert(raw + seq![Seq::<char>::empty()] =~= rawf);
            assert(split_char(content@, '\n') =~= rawf);
            assert(rawf.last() == Seq::<char>::empty());
            assert(rawf.drop_last() =~= raw);
            assert(lines_of(content@) == strip_all(raw));
        }
    }
    out
}

/// Join lines into file text, a '\n' after each line.
pub fn render_lines(lines: &Vec<String>) -> (r: String)
    ensures
        r@ == unlines(lines.deep_view()),
{
    let mut r = String::new();
    let n: usize = lines.len();
    let mut i: usize = 0;
    proof {
        assert(lines.deep_view().take(0) =~= Seq::<Seq<char>>::empty());
    }
    while i < n
        invariant
            n == lines@.len(),
            i <= n,
            r@ == unlines(lines.deep_view().take(i as int)),
        decreases n - i,
    {
        r.append(lines[i].as_str());
        r.append("\n");
        proof {
            reveal_strlit("\n");
            assert("\n"@ =~= seq!['\n']);
            let d = lines.deep_view();
            lemma_unlines_push(d.take(i as int), d[i as int]);
            assert(d.take(i + 1) =~= d.take(i as int).push(d[i as int]));
        }
        i = i + 1;
    }
    proof {
        assert(lines.deep_view().take(n as int) =~= lines.deep_view());
    }
    r
}

/// The rewritten file text for old text `content` and new value `new_path`:
/// the first `export PATH=` line replaced (or such a line put first), every
/// other line kept verbatim, a newline after each line.  Empty old text
/// yields exactly the one export line.
pub fn rewrite_config_content(content: &str, new_path: &str) -> (r: String)
    ensures
        r@ == unlines(apply_export(lines_of(content@), new_path@)),
        content@.len() == 0 ==> r@ == export_line_of(new_path@) + seq!['\n'],
{
    let lines = split_lines(content);
    let updated = apply_path_export(&lines, new_path);
    let r = render_lines(&updated);
    proof {
        if content@.len() == 0 {
            assert(split_char(content@, '\n') =~= seq![Seq::<char>::empty()]);
            assert(seq![Seq::<char>::empty()].last() == Seq::<char>::empty());
            assert(seq![Seq::<char>::empty()].drop_last() =~= Seq::<Seq<char>>::empty());
            assert(lines_of(content@) =~= Seq::<Seq<char>>::empty());
            let el = export_line_of(new_path@);
            let one = seq![el];
            assert(apply_export(lines_of(content@), new_path@) =~= one);
            assert(one[0] == el);
            assert(one.drop_first() =~= Seq::<Seq<char>>::empty());
            assert(unlines(Seq::<Seq<char>>::empty()) == Seq::<char>::empty());
            assert(unlines(one) == el + seq!['\n'] + Seq::<char>::empty());
            assert(el + seq!['\n'] + Seq::<char>::empty() =~= el + seq!['\n']);
        }
    }
    r
}

/// The rewritten file text for the current list of `PATH` entries: the
/// entries joined with ':' become the quoted value of the export line.
pub fn update_shell_config(path_array: &Vec<String>, content: &str) -> (r: String)
    ensures
        r@ == unlines(
            apply_export(lines_of(content@), join_colon(path_array.deep_view())),
        ),
{
    let new_path = join_paths(path_array);
    rewrite_config_content(content, new_path.as_str())
}

} // verus!
