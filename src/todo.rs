//! Finding TODO comments in source text and rendering them.
use vstd::prelude::*;
use crate::text::{
    chars_of, contains_chars, decimal, decimal_chars, occurs, lines, lines_of, string_of, trim,
    trim_chars,
};

verus! {

/// A TODO comment found in a file.
#[derive(Debug)]
pub struct Todo {
    /// Whether the comment may go on in the next line.
    pub multi_line: bool,
    /// The comment from its `T` on, continuation lines included.
    pub content: String,
    /// The line number, in decimal.
    pub line_num: String,
    /// Padding that right-aligns line numbers of up to four digits.
    pub spaces: String,
}

/// What a `Todo` holds, as character sequences.
pub struct TodoView {
    pub multi_line: bool,
    pub content: Seq<char>,
    pub line_num: Seq<char>,
    pub spaces: Seq<char>,
}

impl View for Todo {
    type V = TodoView;

    open spec fn view(&self) -> TodoView {
        TodoView {
            multi_line: self.multi_line,
            content: self.content@,
            line_num: self.line_num@,
            spaces: self.spaces@,
        }
    }
}

pub open spec fn todo_mark() -> Seq<char> {
    seq!['T', 'O', 'D', 'O']
}

pub open spec fn open_mark() -> Seq<char> {
    seq!['/', '*']
}

pub open spec fn close_mark() -> Seq<char> {
    seq!['*', '/']
}

/// `s` from the first occurrence of `c` on; empty when `c` does not occur.
pub open spec fn from_first(s: Seq<char>, c: char) -> Seq<char>
    decreases s.len(),
{
    if s.len() == 0 || s[0] == c {
        s
    } else {
        from_first(s.drop_first(), c)
    }
}

/// Spaces that pad a line number of `n` to four characters.
pub open spec fn padding(n: nat) -> Seq<char> {
    if decimal(n).len() < 4 {
        Seq::new((4 - decimal(n).len()) as nat, |i: int| ' ')
    } else {
        Seq::empty()
    }
}

/// The TODO that starts on `line`, line number `n`; it goes on in the next
/// line when it opens a block comment or `is_multi` says it is inside one.
pub open spec fn new_todo(line: Seq<char>, n: nat, is_multi: bool) -> TodoView {
    let raw = trim(line);
    TodoView {
        multi_line: (raw.len() >= 2 && raw[0] == '/' && raw[1] == '*') || is_multi,
        content: from_first(raw, 'T'),
        line_num: decimal(n),
        spaces: padding(n),
    }
}

/// Whether the character at `i` of a `*`-led line that closes the comment
/// stays: the leading `*`, the closing `*/` and a `/` in front are dropped.
pub open spec fn keeps(v: Seq<char>, i: int) -> bool {
    !((v[i] == '*' && (i == 0 || i == v.len() - 2)) || (v[i] == '/' && (i == 0 || i == v.len() - 1)))
}

/// The first `k` characters of `v` that `keeps` lets stay.
pub open spec fn kept(v: Seq<char>, k: int) -> Seq<char>
    decreases k,
{
    if k <= 0 {
        Seq::empty()
    } else if keeps(v, k - 1) {
        kept(v, k - 1).push(v[k - 1])
    } else {
        kept(v, k - 1)
    }
}

pub open spec fn indent() -> Seq<char> {
    seq!['\n', ' ', ' ', ' ', ' ', ' ', ' ']
}

/// What a continuation line adds to the content: a line break, and the
/// line's text without its comment markers, indented.
pub open spec fn continuation(line: Seq<char>) -> Seq<char> {
    let t = trim(line);
    if t.len() > 0 && t[0] == '*' && !occurs(t, close_mark()) {
        indent() + trim(t.drop_first())
    } else if t.len() > 2 && t[0] == '*' && occurs(t, close_mark()) {
        indent() + trim(kept(t, t.len() as int))
    } else {
        seq!['\n']
    }
}

/// `t` with the continuation `line` added; it goes on while no `*/` closes it.
pub open spec fn with_line(t: TodoView, line: Seq<char>) -> TodoView {
    TodoView {
        multi_line: !occurs(line, close_mark()),
        content: t.content + continuation(line),
        ..t
    }
}

/// The TODOs of `ls` from line index `i` on; `in_block` says whether a
/// block comment without a TODO was opened before.
pub open spec fn scan(ls: Seq<Seq<char>>, i: int, in_block: bool) -> Seq<TodoView>
    decreases ls.len() - i, 1int,
{
    if i < 0 || i >= ls.len() {
        Seq::empty()
    } else {
        let line = ls[i];
        let b = if occurs(line, open_mark()) && !occurs(line, todo_mark()) {
            true
        } else {
            in_block
        };
        if occurs(line, todo_mark()) {
            follow(ls, i, new_todo(line, (i + 1) as nat, b), b)
        } else {
            scan(ls, i + 1, b)
        }
    }
}

/// The TODOs of `ls` when `t` was read up to line index `j`: `t` takes
/// continuation lines until it is closed or the next line holds a TODO of
/// its own, then the scan goes on.
pub open spec fn follow(ls: Seq<Seq<char>>, j: int, t: TodoView, in_block: bool) -> Seq<TodoView>
    decreases ls.len() - j, 0int,
{
    if j < 0 || j + 1 >= ls.len() {
        seq![t]
    } else if !t.multi_line {
        seq![t] + scan(ls, j + 1, in_block)
    } else if occurs(ls[j + 1], todo_mark()) {
        seq![TodoView { multi_line: false, ..t }] + scan(ls, j + 1, true)
    } else {
        let t2 = with_line(t, ls[j + 1]);
        if !t2.multi_line {
            seq![t2] + scan(ls, j + 2, in_block)
        } else {
            follow(ls, j + 1, t2, in_block)
        }
    }
}

/// The TODOs of the text `s`, in order.
pub open spec fn todos_of(s: Seq<char>) -> Seq<TodoView> {
    scan(lines(s), 0, false)
}

/// The views of a sequence of TODOs.
pub open spec fn todo_views(v: Seq<Todo>) -> Seq<TodoView> {
    v.map_values(|t: Todo| t@)
}

fn from_first_chars(s: &[char], c: char) -> (r: Vec<char>)
    ensures
        r@ == from_first(s@, c),
{
    let n = s.len();
    let mut i: usize = 0;
    assert(s@.subrange(0, n as int) =~= s@);
    while i < n && s[i] != c
        invariant
            i <= n,
            n == s@.len(),
            from_first(s@, c) == from_first(s@.subrange(i as int, n as int), c),
        decreases n - i,
    {
        assert(s@.subrange(i as int, n as int).drop_first() =~= s@.subrange(i + 1, n as int));
        i = i + 1;
    }
    let mut r: Vec<char> = Vec::new();
    let mut k: usize = i;
    while k < n
        invariant
            i <= k <= n,
            n == s@.len(),
            r@ == s@.subrange(i as int, k as int),
        decreases n - k,
    {
        r.push(s[k]);
        assert(r@ =~= s@.subrange(i as int, k + 1));
        k = k + 1;
    }
    r
}

/// The comment text from its first `T` on: `// TODO: x` gives `TODO: x`.
/// Empty when there is no `T`.
pub fn remove_comment(todo: &str) -> (r: String)
    ensures
        r@ == from_first(todo@, 'T'),
{
    let cs = chars_of(todo);
    proof {
        assert(cs@.subrange(0, cs@.len() as int) =~= cs@);
    }
    let v = from_first_chars(&cs, 'T');
    string_of(&v)
}

fn padding_for(n: usize) -> (r: Vec<char>)
    ensures
        r@ == padding(n as nat),
{
    let d = decimal_chars(n);
    let mut r: Vec<char> = Vec::new();
    if d.len() < 4 {
        let w = 4 - d.len();
        while r.len() < w
            invariant
                r.len() <= w,
                forall|i: int| 0 <= i < r@.len() ==> r@[i] == ' ',
            decreases w - r.len(),
        {
            r.push(' ');
        }
        assert(r@ =~= padding(n as nat));
    } else {
        assert(r@ =~= padding(n as nat));
    }
    r
}

fn new_from_chars(line: &[char], line_num: usize, is_multi: bool) -> (t: Todo)
    ensures
        t@ == new_todo(line@, line_num as nat, is_multi),
{
    let raw = trim_chars(line);
    let opens = raw.len() >= 2 && raw[0] == '/' && raw[1] == '*';
    let content = from_first_chars(&raw, 'T');
    let num = decimal_chars(line_num);
    let pad = padding_for(line_num);
    Todo {
        multi_line: opens || is_multi,
        content: string_of(&content),
        line_num: string_of(&num),
        spaces: string_of(&pad),
    }
}

fn kept_chars(v: &[char]) -> (r: Vec<char>)
    ensures
        r@ == kept(v@, v@.len() as int),
{
    let n = v.len();
    let mut r: Vec<char> = Vec::new();
    let mut i: usize = 0;
    while i < n
        invariant
            i <= n,
            n == v@.len(),
            r@ == kept(v@, i as int),
        decreases n - i,
    {
        let c = v[i];
        let drop = (c == '*' && (i == 0 || n - i == 2)) || (c == '/' && (i == 0 || n - i == 1));
        if !drop {
            r.push(c);
        }
        i = i + 1;
    }
    r
}

fn continuation_chars(line: &[char]) -> (r: Vec<char>)
    ensures
        r@ == continuation(line@),
{
    let t = trim_chars(line);
    let close = vec!['*', '/'];
    assert(close@ =~= close_mark());
    let closes = contains_chars(&t, &close);
    let mut r: Vec<char> = vec!['\n'];
    if t.len() > 0 && t[0] == '*' && !closes {
        let mut rest: Vec<char> = Vec::new();
        let mut k: usize = 1;
        while k < t.len()
            invariant
                1 <= k <= t@.len(),
                rest@ == t@.subrange(1, k as int),
            decreases t@.len() - k,
        {
            rest.push(t[k]);
            assert(rest@ =~= t@.subrange(1, k + 1));
            k = k + 1;
        }
        assert(rest@ =~= t@.drop_first());
        let body = trim_chars(&rest);
        r = indented(&body);
    } else if t.len() > 2 && t[0] == '*' && closes {
        let body = trim_chars(&kept_chars(&t));
        r = indented(&body);
    } else {
        assert(r@ =~= seq!['\n']);
    }
    r
}

fn indented(body: &[char]) -> (r: Vec<char>)
    ensures
        r@ == indent() + body@,
{
    let mut r: Vec<char> = vec!['\n', ' ', ' ', ' ', ' ', ' ', ' '];
    assert(r@ =~= indent());
    let mut k: usize = 0;
    while k < body.len()
        invariant
            k <= body@.len(),
            r@ == indent() + body@.subrange(0, k as int),
        decreases body@.len() - k,
    {
        r.push(body[k]);
        assert(r@ =~= indent() + body@.subrange(0, k + 1));
        k = k + 1;
    }
    assert(body@.subrange(0, body@.len() as int) =~= body@);
    r
}

fn append_chars(s: &String, extra: &Vec<char>) -> (r: String)
    ensures
        r@ == s@ + extra@,
{
    let mut v = chars_of(s.as_str());
    let mut k: usize = 0;
    let ghost s0 = v@;
    while k < extra.len()
        invariant
            k <= extra@.len(),
            v@ == s0 + extra@.subrange(0, k as int),
        decreases extra@.len() - k,
    {
        v.push(extra[k]);
        assert(v@ =~= s0 + extra@.subrange(0, k + 1));
        k = k + 1;
    }
    assert(extra@.subrange(0, extra@.len() as int) =~= extra@);
    string_of(&v)
}

proof fn lemma_views_push(v: Seq<Todo>, t: Todo)
    ensures
        todo_views(v.push(t)) == todo_views(v).push(t@),
{
    assert(todo_views(v.push(t)) =~= todo_views(v).push(t@));
}

proof fn lemma_line(ls: Vec<Vec<char>>, k: int)
    requires
        0 <= k < ls@.len(),
    ensures
        ls.deep_view()[k] == ls@[k]@,
{
    assert(ls@[k].deep_view() =~= ls@[k]@);
}

/// The TODO comments of `contents`, in order of their first line.
pub fn find_todos(contents: &str) -> (r: Vec<Todo>)
    ensures
        todo_views(r@) == todos_of(contents@),
{
    let cs = chars_of(contents);
    let ls = lines_of(&cs);
    let ghost l = ls.deep_view();
    let todo_pat = vec!['T', 'O', 'D', 'O'];
    let open_pat = vec!['/', '*'];
    assert(todo_pat@ =~= todo_mark());
    assert(open_pat@ =~= open_mark());
    let mut todos: Vec<Todo> = Vec::new();
    let mut i: usize = 0;
    let mut in_block = false;
    assert(todo_views(todos@) =~= Seq::<TodoView>::empty());
    while i < ls.len()
        invariant
            i <= l.len(),
            l.len() == ls@.len(),
            l == ls.deep_view(),
            todo_pat@ == todo_mark(),
            open_pat@ == open_mark(),
            todo_views(todos@) + scan(l, i as int, in_block) == todos_of(contents@),
        decreases l.len() - i,
    {
        proof {
            lemma_line(ls, i as int);
        }
        let has_todo = contains_chars(&ls[i], &todo_pat);
        if contains_chars(&ls[i], &open_pat) && !has_todo {
            in_block = true;
        }
        if !has_todo {
            i = i + 1;
        } else {
            let mut t = new_from_chars(&ls[i], i + 1, in_block);
            let mut j: usize = i;
            let ghost i0 = i;
            let mut done = false;
            while !done
                invariant
                    i0 <= j < l.len(),
                    l.len() == ls@.len(),
                    i <= l.len(),
                    l == ls.deep_view(),
                    todo_pat@ == todo_mark(),
                    done ==> i > i0 && todo_views(todos@) + (seq![t@] + scan(l, i as int, in_block))
                        == todos_of(contents@),
                    !done ==> todo_views(todos@) + follow(l, j as int, t@, in_block) == todos_of(
                        contents@,
                    ),
                decreases l.len() - j, if done { 0int } else { 1int },
            {
                if j >= ls.len() - 1 {
                    i = ls.len();
                    assert(scan(l, i as int, in_block) =~= Seq::<TodoView>::empty());
                    assert(seq![t@] + scan(l, i as int, in_block) =~= seq![t@]);
                    done = true;
                } else {
                    proof {
                        lemma_line(ls, j + 1);
                    }
                    if !t.multi_line {
                        i = j + 1;
                        done = true;
                    } else if contains_chars(&ls[j + 1], &todo_pat) {
                        t.multi_line = false;
                        i = j + 1;
                        in_block = true;
                        done = true;
                    } else {
                        t.add_chars(&ls[j + 1]);
                        if !t.multi_line {
                            i = j + 2;
                            done = true;
                        } else {
                            j = j + 1;
                        }
                    }
                }
            }
            let ghost before = todos@;
            proof {
                lemma_views_push(todos@, t);
            }
            todos.push(t);
            assert(todo_views(before) + (seq![t@] + scan(l, i as int, in_block)) =~= todo_views(
                todos@,
            ) + scan(l, i as int, in_block));
        }
    }
    todos
}

impl Todo {
    /// The TODO that starts on `todo`, line number `line_num`; `is_multi`
    /// says that the line lies inside a block comment.
    pub fn new(todo: &str, line_num: usize, is_multi: bool) -> (t: Todo)
        ensures
            t@ == new_todo(todo@, line_num as nat, is_multi),
    {
        let cs = chars_of(todo);
        new_from_chars(&cs, line_num, is_multi)
    }

    fn add_chars(&mut self, line: &[char])
        ensures
            final(self)@ == with_line(old(self)@, line@),
    {
        let close = vec!['*', '/'];
        assert(close@ =~= close_mark());
        let goes_on = !contains_chars(line, &close);
        let extra = continuation_chars(line);
        self.content = append_chars(&self.content, &extra);
        self.multi_line = goes_on;
    }

    /// Adds the continuation line `line` to the content; the TODO goes on
    /// while no `*/` closes it.
    pub fn add_line(&mut self, line: &str)
        ensures
            final(self)@ == with_line(old(self)@, line@),
    {
        let cs = chars_of(line);
        self.add_chars(&cs);
    }

    /// The TODO as one text: padding, line number, `: `, content.
    pub fn format_todos(&self) -> (r: String)
        ensures
            r@ == self.spaces@ + self.line_num@ + seq![':', ' '] + self.content@,
    {
        let mut v = chars_of(self.spaces.as_str());
        v.append(&mut chars_of(self.line_num.as_str()));
        v.push(':');
        v.push(' ');
        v.append(&mut chars_of(self.content.as_str()));
        string_of(&v)
    }
}

} // verus!
