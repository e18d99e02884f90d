//! Sessions as the settings window shows them: what a chip is called, which
//! zone it is in, what a search finds, and what dropping it onto a group
//! means for the match rules.
use crate::edit::{ConfigEdit, EditView};
use crate::model::{GroupConfig, GroupView};
use crate::rules::MatchRule;
use crate::sample::GroupId;
use crate::text::{
    chars_of, copy_texts, decimal, decimal_of, pieces, same_text, split_text, text_of,
};
use vstd::prelude::*;

verus! {

/// A session that plays audio.
#[derive(Debug, Clone, PartialEq, Eq)]
pub struct SessionInfo {
    pub pid: u32,
    /// The file name of the process image, without its directories.
    pub file_name: String,
    /// The name that the application gives its session; most give none.
    pub display_name: String,
}

/// What a [`SessionInfo`] holds.
pub struct SessionView {
    pub pid: u32,
    pub file_name: Seq<char>,
    pub display_name: Seq<char>,
}

impl DeepView for SessionInfo {
    type V = SessionView;

    open spec fn deep_view(&self) -> SessionView {
        SessionView {
            pid: self.pid,
            file_name: self.file_name@,
            display_name: self.display_name@,
        }
    }
}

/// A text that is one file name on every platform: nothing in it separates the
/// parts of a path or names a drive, and it is no dot entry of a directory.
pub open spec fn is_bare_name(path: Seq<char>) -> bool {
    !path.contains('/') && !path.contains('\\') && !path.contains(':') && path != seq!['.'] && path
        != seq!['.', '.']
}

/// Two separators at the start, which mean a share or a device to some
/// platforms.
pub open spec fn has_prefix_root(path: Seq<char>) -> bool {
    path.len() >= 2 && (path[0] == '/' || path[0] == '\\') && (path[1] == '/' || path[1] == '\\')
}

/// What every platform takes for the last part of a path: a bare name, alone or
/// behind a slash.
pub open spec fn ends_in(path: Seq<char>, name: Seq<char>) -> bool {
    &&& is_bare_name(name)
    &&& path == name || {
        &&& 0 < name.len() < path.len()
        &&& !has_prefix_root(path)
        &&& path == path.take(path.len() - name.len() - 1) + seq!['/'] + name
    }
}

/// A bare name behind a backslash. A backslash separates the parts of a path to
/// some platforms and is a character like others to the rest.
pub open spec fn ends_behind_backslash(path: Seq<char>, name: Seq<char>) -> bool {
    &&& is_bare_name(name)
    &&& 0 < name.len() < path.len()
    &&& !has_prefix_root(path)
    &&& path == path.take(path.len() - name.len() - 1) + seq!['\\'] + name
}

/// What stands behind the last slash of a path, or the whole path where it has
/// none.
pub open spec fn is_behind_slash(path: Seq<char>, part: Seq<char>) -> bool {
    &&& part.is_suffix_of(path)
    &&& !part.contains('/')
    &&& part == path || path[path.len() - part.len() - 1] == '/'
}

/// `Path::file_name`, with nothing in its place where a path has none or it is
/// not Unicode. A bare name is its own last part, and it is the last part of
/// what stands before it with a slash between. Behind a backslash it is the
/// last part where the platform takes that for a separator; elsewhere the last
/// part is what stands behind the last slash. Nothing is claimed of other
/// paths, whose parts are up to the platform.
#[verifier::external_body]
fn last_part(path: &str) -> (r: String)
    ensures
        forall|name: Seq<char>| #[trigger] ends_in(path@, name) ==> r@ == name,
        forall|name: Seq<char>| #[trigger]
            ends_behind_backslash(path@, name) ==> r@ == name || is_behind_slash(path@, r@),
{
    let path = std::path::Path::new(path);
    path.file_name().and_then(|name| name.to_str()).unwrap_or("").to_owned()
}

/// The platform takes this for the last part of the path.
pub closed spec fn is_last_part(path: &str, part: String) -> bool {
    call_ensures(last_part, (path,), part)
}

proof fn lemma_behind_backslash(path: Seq<char>, part: Seq<char>, name: Seq<char>)
    requires
        ends_behind_backslash(path, name),
        part == name || is_behind_slash(path, part),
    ensures
        name.is_suffix_of(part),
        part.is_suffix_of(path),
{
    let before = path.len() - name.len() - 1;
    assert(path[before] == '\\');
    assert(path.subrange(before + 1, path.len() as int) =~= name);
    assert(name.subrange(0, name.len() as int) =~= name);
    if part != name {
        let start = path.len() - part.len();
        assert(path.subrange(start, path.len() as int) =~= part);
        if part.len() <= name.len() {
            assert(path[start - 1] == '/');
            assert(path[start - 1] == name[start - 1 - (before + 1)]);
        }
        assert(part.subrange(part.len() - name.len(), part.len() as int) =~= name);
    }
}

/// The characters with Unicode's `White_Space` property.
pub open spec fn is_white(c: char) -> bool {
    let n = c as u32;
    9 <= n <= 13 || n == 0x20 || n == 0x85 || n == 0xa0 || n == 0x1680 || 0x2000 <= n <= 0x200a || n
        == 0x2028 || n == 0x2029 || n == 0x202f || n == 0x205f || n == 0x3000
}

fn is_blank(c: char) -> (r: bool)
    ensures
        r == is_white(c),
{
    let n: u32 = c as u32;
    (9 <= n && n <= 13) || n == 0x20 || n == 0x85 || n == 0xa0 || n == 0x1680 || (0x2000 <= n && n
        <= 0x200a) || n == 0x2028 || n == 0x2029 || n == 0x202f || n == 0x205f || n == 0x3000
}

/// `str::to_lowercase`: the text in lower case.
pub uninterp spec fn lowercase(text: Seq<char>) -> Seq<char>;

/// `str::to_lowercase`. Its result depends on the text alone and is known here
/// by its name, [`lowercase`].
#[verifier::external_body]
fn to_lower(text: &str) -> (r: String)
    ensures
        r@ == lowercase(text@),
{
    text.to_lowercase()
}

impl SessionInfo {
    /// A session of the process whose image is at `process_path`.
    pub fn of_process(pid: u32, process_path: &str, display_name: &str) -> (r: SessionInfo)
        ensures
            r.pid == pid,
            r.display_name@ == display_name@,
            is_last_part(process_path, r.file_name),
            forall|name: Seq<char>| #[trigger] ends_in(process_path@, name) ==> r.file_name@ == name,
            forall|name: Seq<char>| #[trigger]
                ends_behind_backslash(process_path@, name) ==> name.is_suffix_of(r.file_name@)
                    && r.file_name@.is_suffix_of(process_path@),
    {
        let file_name = last_part(process_path);
        assert forall|name: Seq<char>| #[trigger]
            ends_behind_backslash(process_path@, name) implies name.is_suffix_of(file_name@)
            && file_name@.is_suffix_of(process_path@) by {
            lemma_behind_backslash(process_path@, file_name@, name);
        }
        SessionInfo { pid, file_name, display_name: display_name.to_owned() }
    }

    fn copy(&self) -> (r: SessionInfo)
        ensures
            r.deep_view() == self.deep_view(),
    {
        SessionInfo {
            pid: self.pid,
            file_name: self.file_name.clone(),
            display_name: self.display_name.clone(),
        }
    }
}

/// The text without white space at its front.
pub open spec fn trim_front(text: Seq<char>) -> Seq<char>
    decreases text.len(),
{
    if text.len() > 0 && is_white(text[0]) {
        trim_front(text.skip(1))
    } else {
        text
    }
}

/// The text without white space at its end.
pub open spec fn trim_back(text: Seq<char>) -> Seq<char>
    decreases text.len(),
{
    if text.len() > 0 && is_white(text.last()) {
        trim_back(text.drop_last())
    } else {
        text
    }
}

/// The text without white space at either end.
pub open spec fn trim(text: Seq<char>) -> Seq<char> {
    trim_back(trim_front(text))
}

proof fn lemma_trim_front(text: Seq<char>, n: int)
    requires
        0 <= n <= text.len(),
        forall|i: int| 0 <= i < n ==> is_white(text[i]),
    ensures
        trim_front(text) == trim_front(text.skip(n)),
    decreases n,
{
    if n > 0 {
        assert(text.skip(1).skip(n - 1) =~= text.skip(n));
        lemma_trim_front(text.skip(1), n - 1);
    } else {
        assert(text.skip(0) =~= text);
    }
}

proof fn lemma_trim_back(text: Seq<char>, n: int)
    requires
        0 <= n <= text.len(),
        forall|i: int| n <= i < text.len() ==> is_white(text[i]),
    ensures
        trim_back(text) == trim_back(text.take(n)),
    decreases text.len() - n,
{
    if n < text.len() {
        assert(text.drop_last().take(n) =~= text.take(n));
        lemma_trim_back(text.drop_last(), n);
    } else {
        assert(text.take(n) =~= text);
    }
}

pub(crate) fn trim_text(text: &str) -> (r: String)
    ensures
        r@ == trim(text@),
{
    let chars = chars_of(text);
    let mut start: usize = 0;
    while start < chars.len() && is_blank(chars[start])
        invariant
            start <= chars.len(),
            chars@ == text@,
            forall|i: int| 0 <= i < start ==> is_white(chars@[i]),
        decreases chars.len() - start,
    {
        start = start + 1;
    }
    proof {
        lemma_trim_front(text@, start as int);
    }
    let mut end: usize = chars.len();
    let ghost front = text@.skip(start as int);
    assert(trim_front(text@) == front) by {
        assert(front == text@.skip(start as int));
        if start < chars.len() {
            assert(front[0] == chars@[start as int]);
        }
    }
    while end > start && is_blank(chars[end - 1])
        invariant
            start <= end <= chars.len(),
            chars@ == text@,
            front == text@.skip(start as int),
            forall|i: int| end - start <= i < front.len() ==> is_white(front[i]),
        decreases end,
    {
        assert(front[end - 1 - start] == chars@[end - 1]);
        end = end - 1;
    }
    proof {
        lemma_trim_back(front, end - start);
        let kept = front.take(end - start);
        if kept.len() > 0 {
            assert(kept.last() == chars@[end - 1]);
        }
        assert(kept =~= chars@.subrange(start as int, end as int));
    }
    let mut kept: Vec<char> = Vec::new();
    let mut i: usize = start;
    while i < end
        invariant
            start <= i <= end <= chars.len(),
            kept@ == chars@.subrange(start as int, i as int),
        decreases end - i,
    {
        kept.push(chars[i]);
        i = i + 1;
        assert(kept@ =~= chars@.subrange(start as int, i as int));
    }
    text_of(kept.as_slice())
}

/// What the chip says: the display name unless it is blank, else the file
/// name, else the process id.
pub open spec fn label_of(s: SessionView) -> Seq<char> {
    if trim(s.display_name).len() > 0 {
        s.display_name
    } else if s.file_name.len() > 0 {
        s.file_name
    } else {
        decimal(s.pid as nat)
    }
}

/// The file name of the session's process image, which exact rules match.
pub fn session_file_name(info: &SessionInfo) -> (r: String)
    ensures
        r@ == info.deep_view().file_name,
{
    info.file_name.clone()
}

fn is_empty_text(text: &str) -> (r: bool)
    ensures
        r == (text@.len() == 0),
{
    let chars = chars_of(text);
    chars.len() == 0
}

/// What the chip says. It is never without a label.
pub fn chip_label(session: &SessionInfo) -> (r: String)
    ensures
        r@ == label_of(session.deep_view()),
{
    let trimmed = trim_text(session.display_name.as_str());
    if !is_empty_text(trimmed.as_str()) {
        return session.display_name.clone();
    }
    if !is_empty_text(session.file_name.as_str()) {
        return session.file_name.clone();
    }
    decimal_of(session.pid as usize)
}

proof fn lemma_decimal_not_empty(n: nat)
    ensures
        decimal(n).len() > 0,
{
}

proof fn lemma_trim_len(text: Seq<char>)
    ensures
        trim_front(text).len() <= text.len(),
    decreases text.len(),
{
    if text.len() > 0 && is_white(text[0]) {
        lemma_trim_len(text.skip(1));
    }
}

proof fn lemma_trim_back_len(text: Seq<char>)
    ensures
        trim_back(text).len() <= text.len(),
    decreases text.len(),
{
    if text.len() > 0 && is_white(text.last()) {
        lemma_trim_back_len(text.drop_last());
    }
}

/// A chip always has a label.
pub proof fn chips_are_never_unlabelled(s: SessionView)
    ensures
        label_of(s).len() > 0,
{
    lemma_decimal_not_empty(s.pid as nat);
    lemma_trim_len(s.display_name);
    lemma_trim_back_len(trim_front(s.display_name));
}

/// The order of texts by their characters.
pub open spec fn text_le(a: Seq<char>, b: Seq<char>) -> bool
    decreases a.len(),
{
    if a.len() == 0 {
        true
    } else if b.len() == 0 {
        false
    } else if a[0] != b[0] {
        a[0] < b[0]
    } else {
        text_le(a.skip(1), b.skip(1))
    }
}

fn comes_before(a: &str, b: &str) -> (r: bool)
    ensures
        r == text_le(a@, b@),
{
    let x = chars_of(a);
    let y = chars_of(b);
    let mut i: usize = 0;
    assert(a@.skip(0) =~= a@ && b@.skip(0) =~= b@);
    while i < x.len() && i < y.len()
        invariant
            i <= x.len(),
            i <= y.len(),
            x@ == a@,
            y@ == b@,
            text_le(a@, b@) == text_le(a@.skip(i as int), b@.skip(i as int)),
        decreases x.len() - i,
    {
        let p = x[i];
        let q = y[i];
        assert(a@.skip(i as int)[0] == p && b@.skip(i as int)[0] == q);
        if p != q {
            return p < q;
        }
        assert(a@.skip(i as int).skip(1) =~= a@.skip(i + 1));
        assert(b@.skip(i as int).skip(1) =~= b@.skip(i + 1));
        i = i + 1;
    }
    i == x.len()
}

proof fn lemma_text_total(a: Seq<char>, b: Seq<char>)
    ensures
        text_le(a, b) || text_le(b, a),
    decreases a.len(),
{
    if a.len() > 0 && b.len() > 0 && a[0] == b[0] {
        lemma_text_total(a.skip(1), b.skip(1));
    }
}

proof fn lemma_text_transitive(a: Seq<char>, b: Seq<char>, c: Seq<char>)
    requires
        text_le(a, b),
        text_le(b, c),
    ensures
        text_le(a, c),
    decreases a.len(),
{
    if a.len() > 0 && b.len() > 0 && c.len() > 0 && a[0] == b[0] && b[0] == c[0] {
        lemma_text_transitive(a.skip(1), b.skip(1), c.skip(1));
    }
}

/// How many of the first `n` sessions stay in front of one with that label.
pub open spec fn place_of(sorted: Seq<SessionView>, label: Seq<char>, n: int) -> int
    decreases n,
{
    if n <= 0 {
        0
    } else if text_le(label_of(sorted[n - 1]), label) {
        n
    } else {
        place_of(sorted, label, n - 1)
    }
}

/// The first `n` sessions in the order of their labels. Each goes behind all
/// that came before it and do not come after it by label, so sessions of one
/// label keep their order.
pub open spec fn arranged(sessions: Seq<SessionView>, n: int) -> Seq<SessionView>
    decreases n,
{
    if n <= 0 {
        Seq::empty()
    } else {
        let before = arranged(sessions, n - 1);
        before.insert(
            place_of(before, label_of(sessions[n - 1]), before.len() as int),
            sessions[n - 1],
        )
    }
}

proof fn lemma_place(sorted: Seq<SessionView>, label: Seq<char>, n: int)
    requires
        0 <= n <= sorted.len(),
    ensures
        0 <= place_of(sorted, label, n) <= n,
        place_of(sorted, label, n) > 0 ==> text_le(
            label_of(sorted[place_of(sorted, label, n) - 1]),
            label,
        ),
        forall|i: int|
            place_of(sorted, label, n) <= i < n ==> !text_le(label_of(#[trigger] sorted[i]), label),
    decreases n,
{
    if n > 0 {
        lemma_place(sorted, label, n - 1);
    }
}

proof fn lemma_arranged_len(sessions: Seq<SessionView>, n: int)
    requires
        0 <= n <= sessions.len(),
    ensures
        arranged(sessions, n).len() == n,
    decreases n,
{
    if n > 0 {
        lemma_arranged_len(sessions, n - 1);
        let before = arranged(sessions, n - 1);
        lemma_place(before, label_of(sessions[n - 1]), before.len() as int);
    }
}

fn arrange(sessions: &Vec<SessionInfo>) -> (r: Vec<SessionInfo>)
    ensures
        r.deep_view() == arranged(sessions.deep_view(), sessions@.len() as int),
{
    let mut out: Vec<SessionInfo> = Vec::new();
    assert(out.deep_view() =~= Seq::empty());
    let mut i: usize = 0;
    while i < sessions.len()
        invariant
            i <= sessions.len(),
            out.deep_view() == arranged(sessions.deep_view(), i as int),
        decreases sessions.len() - i,
    {
        let label = chip_label(&sessions[i]);
        let ghost before = out.deep_view();
        assert(sessions.deep_view()[i as int] == sessions@[i as int].deep_view());
        let mut place: usize = out.len();
        while place > 0
            invariant_except_break
                place_of(before, label@, before.len() as int) == place_of(
                    before,
                    label@,
                    place as int,
                ),
            invariant
                place <= out.len(),
                before == out.deep_view(),
            ensures
                place == place_of(before, label@, before.len() as int),
            decreases place,
        {
            let other = chip_label(&out[place - 1]);
            assert(before[place - 1] == out@[place - 1].deep_view());
            if comes_before(other.as_str(), label.as_str()) {
                break;
            }
            place = place - 1;
        }
        let copy = sessions[i].copy();
        out.insert(place, copy);
        assert(out.deep_view() =~= before.insert(place as int, copy.deep_view()));
        i = i + 1;
    }
    out
}

/// The sessions routed to the group at or after `from`.
pub open spec fn route_from(
    routes: Seq<(GroupId, Seq<SessionView>)>,
    group: GroupId,
    from: int,
) -> Seq<SessionView>
    decreases routes.len() - from,
{
    if from < 0 || from >= routes.len() {
        Seq::empty()
    } else if routes[from].0 == group {
        routes[from].1
    } else {
        route_from(routes, group, from + 1)
    }
}

/// The sessions routed to the group, in the order of their labels.
pub fn routed_sessions(routes: &Vec<(GroupId, Vec<SessionInfo>)>, group: GroupId) -> (r: Vec<
    SessionInfo,
>)
    ensures
        r.deep_view() == ({
            let found = route_from(routes.deep_view(), group, 0);
            arranged(found, found.len() as int)
        }),
{
    let mut i: usize = 0;
    while i < routes.len()
        invariant
            i <= routes.len(),
            route_from(routes.deep_view(), group, 0) == route_from(
                routes.deep_view(),
                group,
                i as int,
            ),
        decreases routes.len() - i,
    {
        assert(routes.deep_view()[i as int].0 == routes@[i as int].0);
        if routes[i].0 == group {
            return arrange(&routes[i].1);
        }
        i = i + 1;
    }
    let none: Vec<SessionInfo> = Vec::new();
    assert(none.deep_view() =~= Seq::empty());
    none
}

proof fn lemma_arranged_sorted(sessions: Seq<SessionView>, n: int)
    requires
        0 <= n <= sessions.len(),
    ensures
        forall|i: int, j: int|
            0 <= i < j < arranged(sessions, n).len() ==> text_le(
                label_of(#[trigger] arranged(sessions, n)[i]),
                label_of(#[trigger] arranged(sessions, n)[j]),
            ),
    decreases n,
{
    if n > 0 {
        lemma_arranged_sorted(sessions, n - 1);
        let before = arranged(sessions, n - 1);
        let x = sessions[n - 1];
        let label = label_of(x);
        let p = place_of(before, label, before.len() as int);
        lemma_place(before, label, before.len() as int);
        let after = before.insert(p, x);
        assert forall|i: int, j: int| 0 <= i < j < after.len() implies text_le(
            label_of(#[trigger] after[i]),
            label_of(#[trigger] after[j]),
        ) by {
            if j < p {
                assert(after[i] == before[i] && after[j] == before[j]);
            } else if j == p {
                assert(after[i] == before[i]);
                if i < p - 1 {
                    lemma_text_transitive(
                        label_of(before[i]),
                        label_of(before[p - 1]),
                        label,
                    );
                }
            } else {
                assert(after[j] == before[j - 1]);
                if i < p {
                    assert(after[i] == before[i]);
                } else if i == p {
                    lemma_text_total(label_of(before[j - 1]), label);
                } else {
                    assert(after[i] == before[i - 1]);
                }
            }
        }
    }
}

proof fn lemma_arranged_same(sessions: Seq<SessionView>, n: int)
    requires
        0 <= n <= sessions.len(),
    ensures
        arranged(sessions, n).to_multiset() == sessions.take(n).to_multiset(),
    decreases n,
{
    broadcast use vstd::seq_lib::group_to_multiset_ensures;

    if n > 0 {
        lemma_arranged_same(sessions, n - 1);
        let before = arranged(sessions, n - 1);
        let x = sessions[n - 1];
        let p = place_of(before, label_of(x), before.len() as int);
        lemma_place(before, label_of(x), before.len() as int);
        assert(before.insert(p, x).to_multiset() =~= before.to_multiset().insert(x));
        assert(sessions.take(n) =~= sessions.take(n - 1).push(x));
        assert(sessions.take(n).to_multiset() =~= sessions.take(n - 1).to_multiset().insert(x));
    } else {
        assert(sessions.take(0) =~= Seq::empty());
    }
}

/// Arranging loses no session, invents none, and puts them in the order of
/// their labels.
pub proof fn arranging_sorts_by_label(sessions: Seq<SessionView>)
    ensures
        ({
            let r = arranged(sessions, sessions.len() as int);
            &&& r.to_multiset() == sessions.to_multiset()
            &&& forall|i: int, j: int|
                0 <= i < j < r.len() ==> text_le(
                    label_of(#[trigger] r[i]),
                    label_of(#[trigger] r[j]),
                )
        }),
{
    lemma_arranged_sorted(sessions, sessions.len() as int);
    lemma_arranged_same(sessions, sessions.len() as int);
    assert(sessions.take(sessions.len() as int) =~= sessions);
}

/// Some route holds the process.
pub open spec fn is_routed(routes: Seq<(GroupId, Seq<SessionView>)>, pid: u32) -> bool {
    exists|i: int, j: int|
        0 <= i < routes.len() && 0 <= j < routes[i].1.len() && (#[trigger] routes[i].1[j]).pid
            == pid
}

fn holds_pid(sessions: &Vec<SessionInfo>, pid: u32) -> (r: bool)
    ensures
        r == exists|j: int|
            0 <= j < sessions.deep_view().len() && (#[trigger] sessions.deep_view()[j]).pid == pid,
{
    let mut j: usize = 0;
    while j < sessions.len()
        invariant
            j <= sessions.len(),
            forall|k: int| 0 <= k < j ==> (#[trigger] sessions.deep_view()[k]).pid != pid,
        decreases sessions.len() - j,
    {
        if sessions[j].pid == pid {
            assert(sessions.deep_view()[j as int].pid == pid);
            return true;
        }
        j = j + 1;
    }
    assert(sessions.deep_view().len() == sessions@.len());
    false
}

fn routes_hold(routes: &Vec<(GroupId, Vec<SessionInfo>)>, pid: u32) -> (r: bool)
    ensures
        r == is_routed(routes.deep_view(), pid),
{
    let ghost rv = routes.deep_view();
    let mut i: usize = 0;
    while i < routes.len()
        invariant
            i <= routes.len(),
            rv == routes.deep_view(),
            forall|k: int, j: int|
                0 <= k < i && 0 <= j < rv[k].1.len() ==> (#[trigger] rv[k].1[j]).pid != pid,
        decreases routes.len() - i,
    {
        assert(rv[i as int].1 == routes@[i as int].1.deep_view());
        if holds_pid(&routes[i].1, pid) {
            let ghost j = choose|j: int|
                0 <= j < routes@[i as int].1.deep_view().len() && (
                #[trigger] routes@[i as int].1.deep_view()[j]).pid == pid;
            assert(rv[i as int].1[j].pid == pid);
            return true;
        }
        i = i + 1;
    }
    assert(rv.len() == routes@.len());
    false
}

/// The first `n` sessions without those that are routed.
pub open spec fn unassigned_upto(
    all: Seq<SessionView>,
    routes: Seq<(GroupId, Seq<SessionView>)>,
    n: int,
) -> Seq<SessionView>
    decreases n,
{
    if n <= 0 {
        Seq::empty()
    } else if is_routed(routes, all[n - 1].pid) {
        unassigned_upto(all, routes, n - 1)
    } else {
        unassigned_upto(all, routes, n - 1).push(all[n - 1])
    }
}

/// The sessions that no group has, in their order.
pub fn unassigned_sessions(
    all: &Vec<SessionInfo>,
    routes: &Vec<(GroupId, Vec<SessionInfo>)>,
) -> (r: Vec<SessionInfo>)
    ensures
        r.deep_view() == unassigned_upto(all.deep_view(), routes.deep_view(), all@.len() as int),
{
    let mut out: Vec<SessionInfo> = Vec::new();
    assert(out.deep_view() =~= Seq::empty());
    let mut i: usize = 0;
    while i < all.len()
        invariant
            i <= all.len(),
            out.deep_view() == unassigned_upto(all.deep_view(), routes.deep_view(), i as int),
        decreases all.len() - i,
    {
        let ghost before = out.deep_view();
        assert(all.deep_view()[i as int] == all@[i as int].deep_view());
        if !routes_hold(routes, all[i].pid) {
            let copy = all[i].copy();
            out.push(copy);
            assert(out.deep_view() =~= before.push(copy.deep_view()));
        }
        i = i + 1;
    }
    out
}

/// The text occurs in the other one, as it stands.
pub open spec fn occurs_in(part: Seq<char>, text: Seq<char>) -> bool {
    exists|i: int|
        0 <= i <= text.len() - part.len() && #[trigger] text.subrange(i, i + part.len()) == part
}

fn stands_at(text: &Vec<char>, part: &Vec<char>, at: usize) -> (r: bool)
    requires
        at + part@.len() <= text@.len(),
    ensures
        r == (text@.subrange(at as int, at + part@.len()) == part@),
{
    let ghost there = text@.subrange(at as int, at + part@.len());
    let mut j: usize = 0;
    while j < part.len()
        invariant
            j <= part.len(),
            at + part@.len() <= text.len(),
            there == text@.subrange(at as int, at + part@.len()),
            forall|k: int| 0 <= k < j ==> there[k] == part@[k],
        decreases part.len() - j,
    {
        if text[at + j] != part[j] {
            assert(there[j as int] != part@[j as int]);
            return false;
        }
        j = j + 1;
    }
    assert(there =~= part@);
    true
}

fn contains_text(text: &str, part: &str) -> (r: bool)
    ensures
        r == occurs_in(part@, text@),
{
    let t = chars_of(text);
    let p = chars_of(part);
    if p.len() > t.len() {
        return false;
    }
    let last: usize = t.len() - p.len();
    let mut i: usize = 0;
    while i <= last
        invariant
            last + p@.len() == t@.len(),
            i <= last + 1,
            t@ == text@,
            p@ == part@,
            forall|k: int| 0 <= k < i ==> #[trigger] text@.subrange(k, k + part@.len()) != part@,
        decreases last + 1 - i,
    {
        if stands_at(&t, &p, i) {
            return true;
        }
        if i == last {
            return false;
        }
        i = i + 1;
    }
    false
}

/// A search finds the session: by its label or by its file name, whatever the
/// case of the letters. An empty search finds every session.
pub open spec fn found_by(s: SessionView, query: Seq<char>) -> bool {
    query.len() == 0 || occurs_in(lowercase(query), lowercase(label_of(s))) || occurs_in(
        lowercase(query),
        lowercase(s.file_name),
    )
}

pub fn session_matches(session: &SessionInfo, query: &str) -> (r: bool)
    ensures
        r == found_by(session.deep_view(), query@),
{
    if is_empty_text(query) {
        return true;
    }
    let wanted = to_lower(query);
    let label = chip_label(session);
    let label = to_lower(label.as_str());
    if contains_text(label.as_str(), wanted.as_str()) {
        return true;
    }
    let file_name = to_lower(session.file_name.as_str());
    contains_text(file_name.as_str(), wanted.as_str())
}

/// The first `n` sessions without those that a search does not find.
pub open spec fn found_upto(sessions: Seq<SessionView>, query: Seq<char>, n: int) -> Seq<
    SessionView,
>
    decreases n,
{
    if n <= 0 {
        Seq::empty()
    } else if found_by(sessions[n - 1], query) {
        found_upto(sessions, query, n - 1).push(sessions[n - 1])
    } else {
        found_upto(sessions, query, n - 1)
    }
}

/// The sessions of a zone that a search leaves in it.
pub fn shown_sessions(sessions: &Vec<SessionInfo>, query: &str) -> (r: Vec<SessionInfo>)
    ensures
        r.deep_view() == found_upto(sessions.deep_view(), query@, sessions@.len() as int),
{
    let mut out: Vec<SessionInfo> = Vec::new();
    assert(out.deep_view() =~= Seq::empty());
    let mut i: usize = 0;
    while i < sessions.len()
        invariant
            i <= sessions.len(),
            out.deep_view() == found_upto(sessions.deep_view(), query@, i as int),
        decreases sessions.len() - i,
    {
        let ghost before = out.deep_view();
        assert(sessions.deep_view()[i as int] == sessions@[i as int].deep_view());
        if session_matches(&sessions[i], query) {
            let copy = sessions[i].copy();
            out.push(copy);
            assert(out.deep_view() =~= before.push(copy.deep_view()));
        }
        i = i + 1;
    }
    out
}

/// Which zone of chips this is.
#[derive(Debug, Clone, Copy, PartialEq, Eq, Structural)]
pub enum ZoneKind {
    Unassigned,
    Group,
}

/// Why a zone shows nothing.
#[derive(Debug, Clone, Copy, PartialEq, Eq, Structural)]
pub enum EmptyReason {
    NothingPlaying,
    AllRouted,
    GroupEmpty,
    NoMatches,
}

/// Why a zone shows nothing. A search is to blame only where it hid something:
/// a zone that had no chips before it was empty all along.
pub fn empty_reason(
    zone: ZoneKind,
    any_sessions: bool,
    zone_had_chips: bool,
    searching: bool,
) -> (r: EmptyReason)
    ensures
        r == (if !any_sessions {
            EmptyReason::NothingPlaying
        } else if searching && zone_had_chips {
            EmptyReason::NoMatches
        } else if zone == ZoneKind::Unassigned {
            EmptyReason::AllRouted
        } else {
            EmptyReason::GroupEmpty
        }),
{
    if !any_sessions {
        EmptyReason::NothingPlaying
    } else if searching && zone_had_chips {
        EmptyReason::NoMatches
    } else if zone == ZoneKind::Unassigned {
        EmptyReason::AllRouted
    } else {
        EmptyReason::GroupEmpty
    }
}

/// What an empty zone says. The search is named only where it is to blame.
pub fn empty_message(reason: EmptyReason, query: &str) -> (r: String)
    ensures
        r@ == (match reason {
            EmptyReason::NothingPlaying => "No apps are playing audio."@,
            EmptyReason::AllRouted => "All apps are routed."@,
            EmptyReason::GroupEmpty => "Drag an app here, or right-click an app to assign it."@,
            EmptyReason::NoMatches => "No apps match \""@ + query@ + "\"."@,
        }),
{
    match reason {
        EmptyReason::NothingPlaying => String::from_str("No apps are playing audio."),
        EmptyReason::AllRouted => String::from_str("All apps are routed."),
        EmptyReason::GroupEmpty => String::from_str(
            "Drag an app here, or right-click an app to assign it.",
        ),
        EmptyReason::NoMatches => String::from_str("No apps match \"").concat(query).concat("\"."),
    }
}

/// The groups that are soloed, by name.
#[derive(Debug)]
pub struct SoloSet {
    names: Vec<String>,
}

impl SoloSet {
    /// No name is there twice.
    pub closed spec fn wf(self) -> bool {
        forall|i: int, j: int|
            0 <= i < j < self.names@.len() ==> #[trigger] self.names@[i]@
                != #[trigger] self.names@[j]@
    }

    /// Whether a group is soloed.
    pub closed spec fn has(self, name: Seq<char>) -> bool {
        exists|i: int| 0 <= i < self.names@.len() && #[trigger] self.names@[i]@ == name
    }

    /// Nobody is soloed.
    pub fn new() -> (r: SoloSet)
        ensures
            r.wf(),
            forall|name: Seq<char>| !#[trigger] r.has(name),
    {
        SoloSet { names: Vec::new() }
    }

    fn find(&self, name: &str) -> (r: Option<usize>)
        ensures
            match r {
                Some(i) => i < self.names@.len() && self.names@[i as int]@ == name@,
                None => !self.has(name@),
            },
    {
        let mut i: usize = 0;
        while i < self.names.len()
            invariant
                i <= self.names@.len(),
                forall|j: int| 0 <= j < i ==> #[trigger] self.names@[j]@ != name@,
            decreases self.names@.len() - i,
        {
            if same_text(self.names[i].as_str(), name) {
                return Some(i);
            }
            i = i + 1;
        }
        None
    }

    pub fn contains(&self, name: &str) -> (r: bool)
        ensures
            r == self.has(name@),
    {
        self.find(name).is_some()
    }

    pub fn is_empty(&self) -> (r: bool)
        ensures
            r == forall|name: Seq<char>| !#[trigger] self.has(name),
    {
        if self.names.len() > 0 {
            assert(self.has(self.names@[0]@));
        }
        self.names.len() == 0
    }

    /// All that are soloed, each once.
    pub fn names(&self) -> (r: Vec<String>)
        requires
            self.wf(),
        ensures
            r.deep_view().no_duplicates(),
            forall|name: Seq<char>| #[trigger] r.deep_view().contains(name) == self.has(name),
    {
        let r = copy_texts(&self.names);
        proof {
            assert(r.deep_view() == self.names.deep_view());
            assert forall|i: int, j: int|
                0 <= i < r.deep_view().len() && 0 <= j < r.deep_view().len() && i
                    != j implies r.deep_view()[i] != r.deep_view()[j] by {
                assert(r.deep_view()[i] == self.names@[i]@);
                assert(r.deep_view()[j] == self.names@[j]@);
            }
            assert forall|name: Seq<char>| #[trigger]
                r.deep_view().contains(name) == self.has(name) by {
                if self.has(name) {
                    let k = choose|k: int|
                        0 <= k < self.names@.len() && #[trigger] self.names@[k]@ == name;
                    assert(r.deep_view()[k] == name);
                }
                if r.deep_view().contains(name) {
                    let k = choose|k: int|
                        0 <= k < r.deep_view().len() && r.deep_view()[k] == name;
                    assert(self.names@[k]@ == name);
                }
            }
        }
        r
    }

    /// Solos a group, or ends its solo. Every other group is left as it was.
    pub fn set(&mut self, name: &str, on: bool)
        requires
            old(self).wf(),
        ensures
            final(self).wf(),
            forall|other: Seq<char>|
                #[trigger] final(self).has(other) == if other == name@ {
                    on
                } else {
                    old(self).has(other)
                },
    {
        let ghost before = self.names@;
        match self.find(name) {
            Some(i) => {
                if !on {
                    self.names.remove(i);
                    proof {
                        let after = self.names@;
                        assert(after == before.remove(i as int));
                        assert forall|other: Seq<char>| #[trigger] self.has(other) == if other
                            == name@ {
                            on
                        } else {
                            old(self).has(other)
                        } by {
                            if old(self).has(other) && other != name@ {
                                let k = choose|k: int|
                                    0 <= k < before.len() && #[trigger] before[k]@ == other;
                                let at = if k < i {
                                    k
                                } else {
                                    k - 1
                                };
                                assert(after[at]@ == other);
                            }
                            if self.has(other) {
                                let k = choose|k: int|
                                    0 <= k < after.len() && #[trigger] after[k]@ == other;
                                let at = if k < i {
                                    k
                                } else {
                                    k + 1
                                };
                                assert(before[at]@ == other);
                            }
                        }
                    }
                }
            },
            None => {
                if on {
                    self.names.push(name.to_owned());
                    proof {
                        let after = self.names@;
                        let n = before.len() as int;
                        assert(after[n]@ == name@);
                        assert forall|other: Seq<char>| #[trigger] self.has(other) == if other
                            == name@ {
                            on
                        } else {
                            old(self).has(other)
                        } by {
                            if old(self).has(other) {
                                let k = choose|k: int|
                                    0 <= k < before.len() && #[trigger] before[k]@ == other;
                                assert(after[k]@ == other);
                            }
                            if self.has(other) && other != name@ {
                                let k = choose|k: int|
                                    0 <= k < after.len() && #[trigger] after[k]@ == other;
                                assert(before[k]@ == other);
                            }
                        }
                        assert forall|i: int, j: int| 0 <= i < j < after.len() implies #[trigger] after[i]@
                            != #[trigger] after[j]@ by {
                            if j == n {
                                assert(before[i]@ == after[i]@);
                            } else {
                                assert(before[i]@ != before[j]@);
                            }
                        }
                    }
                }
            },
        }
    }
}

/// A rebuild of the mixer starts every group unsoloed, so the solo set goes
/// with it.
pub fn clear_solo_on_rebuild(soloed: &mut SoloSet, seen: &mut u64, current: u64)
    requires
        old(soloed).wf(),
    ensures
        final(soloed).wf(),
        *final(seen) == current,
        forall|name: Seq<char>|
            #[trigger] final(soloed).has(name) == (current == *old(seen) && old(soloed).has(name)),
{
    if current != *seen {
        *soloed = SoloSet::new();
        *seen = current;
    }
}

/// A group is dimmed while the solo of another group silences it. One that is
/// muted shows that already.
pub fn is_dimmed_by_other_solo(solo_active: bool, is_soloed: bool, muted: bool) -> (r: bool)
    ensures
        r == (solo_active && !is_soloed && !muted),
{
    solo_active && !is_soloed && !muted
}

/// The letter in lower case, where it is one of the ASCII capitals.
pub open spec fn ascii_lower(c: char) -> char {
    if 'A' <= c <= 'Z' {
        (c as u32 + 32) as char
    } else {
        c
    }
}

/// Two texts are the same but for the case of ASCII letters.
pub open spec fn same_but_for_case(a: Seq<char>, b: Seq<char>) -> bool {
    a.len() == b.len() && forall|i: int|
        0 <= i < a.len() ==> ascii_lower(#[trigger] a[i]) == ascii_lower(b[i])
}

fn lower_code(c: char) -> (r: u32)
    ensures
        r == ascii_lower(c) as u32,
{
    if 'A' <= c && c <= 'Z' {
        c as u32 + 32
    } else {
        c as u32
    }
}

fn eq_ignore_ascii_case(a: &str, b: &str) -> (r: bool)
    ensures
        r == same_but_for_case(a@, b@),
{
    let x = chars_of(a);
    let y = chars_of(b);
    if x.len() != y.len() {
        return false;
    }
    let mut i: usize = 0;
    while i < x.len()
        invariant
            i <= x.len() == y.len(),
            x@ == a@,
            y@ == b@,
            forall|j: int| 0 <= j < i ==> ascii_lower(#[trigger] a@[j]) == ascii_lower(b@[j]),
        decreases x.len() - i,
    {
        if lower_code(x[i]) != lower_code(y[i]) {
            assert(ascii_lower(a@[i as int]) != ascii_lower(b@[i as int]));
            return false;
        }
        i = i + 1;
    }
    true
}

/// The rule names exactly this file, whatever the case. A pattern never does.
pub open spec fn names_file(rule: Seq<char>, file_name: Seq<char>) -> bool {
    !rule.contains('*') && same_but_for_case(rule, file_name)
}

pub fn is_exact_match_for(rule: &str, session_file_name: &str) -> (r: bool)
    ensures
        r == names_file(rule@, session_file_name@),
{
    match MatchRule::parse(rule) {
        MatchRule::ExactName(name) => eq_ignore_ascii_case(name.as_str(), session_file_name),
        MatchRule::Glob(_) => false,
    }
}

/// Some rule names the file.
pub open spec fn has_exact(rules: Seq<Seq<char>>, file_name: Seq<char>) -> bool {
    exists|i: int| 0 <= i < rules.len() && names_file(#[trigger] rules[i], file_name)
}

/// The first `n` rules without those that name the file.
pub open spec fn without_exact(rules: Seq<Seq<char>>, file_name: Seq<char>, n: int) -> Seq<
    Seq<char>,
>
    decreases n,
{
    if n <= 0 {
        Seq::empty()
    } else if names_file(rules[n - 1], file_name) {
        without_exact(rules, file_name, n - 1)
    } else {
        without_exact(rules, file_name, n - 1).push(rules[n - 1])
    }
}

/// The rules of a group once the file was dropped onto the target: the target
/// names it, no other group does, and patterns stay as they are.
pub open spec fn rules_after_drop(
    g: GroupView,
    file_name: Seq<char>,
    target: Option<Seq<char>>,
) -> Seq<Seq<char>> {
    if target == Some(g.name) {
        if has_exact(g.match_rules, file_name) {
            g.match_rules
        } else {
            g.match_rules.push(file_name)
        }
    } else {
        without_exact(g.match_rules, file_name, g.match_rules.len() as int)
    }
}

/// The edit for one group: none where its rules stay as they are.
pub open spec fn drop_edit(g: GroupView, file_name: Seq<char>, target: Option<Seq<char>>) -> Seq<
    EditView,
> {
    if (target == Some(g.name)) == has_exact(g.match_rules, file_name) {
        Seq::empty()
    } else {
        seq![EditView::SetRules(g.name, rules_after_drop(g, file_name, target))]
    }
}

/// The edits for the first `n` groups.
pub open spec fn drop_edits(
    groups: Seq<GroupView>,
    file_name: Seq<char>,
    target: Option<Seq<char>>,
    n: int,
) -> Seq<EditView>
    decreases n,
{
    if n <= 0 {
        Seq::empty()
    } else {
        drop_edits(groups, file_name, target, n - 1) + drop_edit(groups[n - 1], file_name, target)
    }
}

fn names_exactly(rules: &Vec<String>, file_name: &str) -> (r: bool)
    ensures
        r == has_exact(rules.deep_view(), file_name@),
{
    let mut i: usize = 0;
    while i < rules.len()
        invariant
            i <= rules.len(),
            forall|j: int| 0 <= j < i ==> !names_file(#[trigger] rules.deep_view()[j], file_name@),
        decreases rules.len() - i,
    {
        if is_exact_match_for(rules[i].as_str(), file_name) {
            assert(names_file(rules.deep_view()[i as int], file_name@));
            return true;
        }
        i = i + 1;
    }
    assert(rules.deep_view().len() == rules@.len());
    false
}

fn rules_without(rules: &Vec<String>, file_name: &str) -> (r: Vec<String>)
    ensures
        r.deep_view() == without_exact(rules.deep_view(), file_name@, rules@.len() as int),
{
    let mut out: Vec<String> = Vec::new();
    assert(out.deep_view() =~= Seq::empty());
    let mut i: usize = 0;
    while i < rules.len()
        invariant
            i <= rules.len(),
            out.deep_view() == without_exact(rules.deep_view(), file_name@, i as int),
        decreases rules.len() - i,
    {
        let ghost before = out.deep_view();
        assert(rules.deep_view()[i as int] == rules@[i as int]@);
        if !is_exact_match_for(rules[i].as_str(), file_name) {
            let copy = rules[i].clone();
            out.push(copy);
            assert(out.deep_view() =~= before.push(copy@));
        }
        i = i + 1;
    }
    out
}

/// What dropping a session onto a group, or with no target onto the pool of
/// unassigned ones, does to the match rules. Only groups whose rules change
/// get an edit.
pub fn resolve_drag_assign(
    session_file_name: &str,
    target: Option<&str>,
    groups: &Vec<GroupConfig>,
) -> (r: Vec<ConfigEdit>)
    ensures
        r.deep_view() == drop_edits(
            groups.deep_view(),
            session_file_name@,
            crate::sink::text_of_option(target),
            groups@.len() as int,
        ),
{
    let ghost wanted = crate::sink::text_of_option(target);
    let mut edits: Vec<ConfigEdit> = Vec::new();
    assert(edits.deep_view() =~= Seq::empty());
    let mut i: usize = 0;
    while i < groups.len()
        invariant
            i <= groups.len(),
            wanted == crate::sink::text_of_option(target),
            edits.deep_view() == drop_edits(
                groups.deep_view(),
                session_file_name@,
                wanted,
                i as int,
            ),
        decreases groups.len() - i,
    {
        let ghost before = edits.deep_view();
        let g: &GroupConfig = &groups[i];
        assert(groups.deep_view()[i as int] == g.deep_view());
        let is_target = match target {
            Some(name) => same_text(name, g.name.as_str()),
            None => false,
        };
        let named = names_exactly(&g.match_rules, session_file_name);
        if is_target && !named {
            let mut rules = copy_texts(&g.match_rules);
            let ghost old_rules = rules.deep_view();
            rules.push(session_file_name.to_owned());
            assert(rules.deep_view() =~= old_rules.push(session_file_name@));
            edits.push(ConfigEdit::SetRules(g.name.clone(), rules));
        } else if !is_target && named {
            let rules = rules_without(&g.match_rules, session_file_name);
            edits.push(ConfigEdit::SetRules(g.name.clone(), rules));
        }
        assert(edits.deep_view() =~= before + drop_edit(
            g.deep_view(),
            session_file_name@,
            wanted,
        ));
        i = i + 1;
    }
    edits
}

proof fn lemma_without_exact(rules: Seq<Seq<char>>, file_name: Seq<char>, n: int)
    requires
        0 <= n <= rules.len(),
    ensures
        !has_exact(without_exact(rules, file_name, n), file_name),
        forall|x: Seq<char>| #[trigger]
            without_exact(rules, file_name, n).contains(x) <==> rules.take(n).contains(x)
                && !names_file(x, file_name),
    decreases n,
{
    if n > 0 {
        lemma_without_exact(rules, file_name, n - 1);
        let before = without_exact(rules, file_name, n - 1);
        let after = without_exact(rules, file_name, n);
        let last = rules[n - 1];
        assert(rules.take(n) =~= rules.take(n - 1).push(last));
        assert forall|x: Seq<char>| #[trigger] after.contains(x) <==> rules.take(n).contains(x)
            && !names_file(x, file_name) by {
            assert(before.contains(x) <==> rules.take(n - 1).contains(x) && !names_file(
                x,
                file_name,
            ));
            lemma_push_contains(rules.take(n - 1), last, x);
            lemma_push_contains(before, last, x);
        }
        assert(!has_exact(after, file_name)) by {
            if has_exact(after, file_name) {
                let i = choose|i: int|
                    0 <= i < after.len() && names_file(#[trigger] after[i], file_name);
                assert(after.contains(after[i]));
            }
        }
    } else {
        assert(rules.take(0) =~= Seq::empty());
    }
}

proof fn lemma_push_contains(s: Seq<Seq<char>>, last: Seq<char>, x: Seq<char>)
    ensures
        s.push(last).contains(x) <==> (s.contains(x) || last == x),
{
    if s.contains(x) {
        let i = choose|i: int| 0 <= i < s.len() && s[i] == x;
        assert(s.push(last)[i] == x);
    }
    if last == x {
        assert(s.push(last)[s.len() as int] == x);
    }
    if s.push(last).contains(x) && last != x {
        let i = choose|i: int| 0 <= i < s.push(last).len() && s.push(last)[i] == x;
        assert(s[i] == x);
    }
}

/// After a drop the target names the file and every other group does not.
/// Patterns are never touched: a rule that does not name the file is kept by
/// every group, and none but the file name is added.
pub proof fn a_drop_moves_one_name(g: GroupView, file_name: Seq<char>, target: Option<Seq<char>>)
    requires
        !file_name.contains('*'),
    ensures
        has_exact(rules_after_drop(g, file_name, target), file_name) <==> target == Some(g.name),
        forall|rule: Seq<char>|
            !names_file(rule, file_name) ==> (#[trigger] rules_after_drop(
                g,
                file_name,
                target,
            ).contains(rule) <==> g.match_rules.contains(rule)),
{
    let rules = g.match_rules;
    let after = rules_after_drop(g, file_name, target);
    assert(names_file(file_name, file_name));
    if target == Some(g.name) {
        if !has_exact(rules, file_name) {
            assert(after[rules.len() as int] == file_name);
            assert forall|rule: Seq<char>| !names_file(rule, file_name) implies (
            #[trigger] after.contains(rule) <==> rules.contains(rule)) by {
                lemma_push_contains(rules, file_name, rule);
            }
        }
    } else {
        lemma_without_exact(rules, file_name, rules.len() as int);
        assert(rules.take(rules.len() as int) =~= rules);
    }
}

/// The groups once the file was dropped.
pub open spec fn groups_after_drop(
    groups: Seq<GroupView>,
    file_name: Seq<char>,
    target: Option<Seq<char>>,
) -> Seq<GroupView> {
    Seq::new(
        groups.len(),
        |i: int|
            GroupView { match_rules: rules_after_drop(groups[i], file_name, target), ..groups[i] },
    )
}

proof fn lemma_second_drop(
    groups: Seq<GroupView>,
    file_name: Seq<char>,
    target: Option<Seq<char>>,
    n: int,
)
    requires
        !file_name.contains('*'),
        0 <= n <= groups.len(),
    ensures
        drop_edits(groups_after_drop(groups, file_name, target), file_name, target, n) == Seq::<
            EditView,
        >::empty(),
    decreases n,
{
    if n > 0 {
        lemma_second_drop(groups, file_name, target, n - 1);
        a_drop_moves_one_name(groups[n - 1], file_name, target);
        let after = groups_after_drop(groups, file_name, target);
        assert(drop_edits(after, file_name, target, n) =~= Seq::empty());
    }
}

/// Dropping a session where it already is changes nothing.
pub proof fn a_second_drop_changes_nothing(
    groups: Seq<GroupView>,
    file_name: Seq<char>,
    target: Option<Seq<char>>,
)
    requires
        !file_name.contains('*'),
    ensures
        drop_edits(
            groups_after_drop(groups, file_name, target),
            file_name,
            target,
            groups.len() as int,
        ) == Seq::<EditView>::empty(),
{
    lemma_second_drop(groups, file_name, target, groups.len() as int);
}

/// Position of the session with that process id at or after `from`.
pub open spec fn session_from(sessions: Seq<SessionView>, pid: u32, from: int) -> Option<int>
    decreases sessions.len() - from,
{
    if from < 0 || from >= sessions.len() {
        None
    } else if sessions[from].pid == pid {
        Some(from)
    } else {
        session_from(sessions, pid, from + 1)
    }
}

/// What dropping the chip of a process does. A process that is gone does
/// nothing.
pub fn handle_drop(
    pid: u32,
    target: Option<&str>,
    all_sessions: &Vec<SessionInfo>,
    groups: &Vec<GroupConfig>,
) -> (r: Vec<ConfigEdit>)
    ensures
        r.deep_view() == match session_from(all_sessions.deep_view(), pid, 0) {
            None => Seq::empty(),
            Some(i) => drop_edits(
                groups.deep_view(),
                all_sessions.deep_view()[i].file_name,
                crate::sink::text_of_option(target),
                groups@.len() as int,
            ),
        },
{
    let none: Vec<ConfigEdit> = Vec::new();
    assert(none.deep_view() =~= Seq::empty());
    let mut i: usize = 0;
    while i < all_sessions.len()
        invariant
            i <= all_sessions.len(),
            session_from(all_sessions.deep_view(), pid, 0) == session_from(
                all_sessions.deep_view(),
                pid,
                i as int,
            ),
            none.deep_view() == Seq::<EditView>::empty(),
        decreases all_sessions.len() - i,
    {
        assert(all_sessions.deep_view()[i as int] == all_sessions@[i as int].deep_view());
        if all_sessions[i].pid == pid {
            let file_name = session_file_name(&all_sessions[i]);
            return resolve_drag_assign(file_name.as_str(), target, groups);
        }
        i = i + 1;
    }
    none
}

/// The first `n` pieces, trimmed, without those that are empty then.
pub open spec fn rules_upto(parts: Seq<Seq<char>>, n: int) -> Seq<Seq<char>>
    decreases n,
{
    if n <= 0 {
        Seq::empty()
    } else if trim(parts[n - 1]).len() == 0 {
        rules_upto(parts, n - 1)
    } else {
        rules_upto(parts, n - 1).push(trim(parts[n - 1]))
    }
}

/// The rules that a text with commas writes.
pub open spec fn rules_in(text: Seq<char>) -> Seq<Seq<char>> {
    rules_upto(pieces(text, ','), pieces(text, ',').len() as int)
}

/// The rules that a text with commas writes: trimmed, and without empty ones.
pub fn split_rules(text: &str) -> (r: Vec<String>)
    ensures
        r.deep_view() == rules_in(text@),
{
    let parts = split_text(text, ',');
    let mut out: Vec<String> = Vec::new();
    assert(out.deep_view() =~= Seq::empty());
    let mut i: usize = 0;
    while i < parts.len()
        invariant
            i <= parts.len(),
            out.deep_view() == rules_upto(parts.deep_view(), i as int),
        decreases parts.len() - i,
    {
        let ghost before = out.deep_view();
        assert(parts.deep_view()[i as int] == parts@[i as int]@);
        let rule = trim_text(parts[i].as_str());
        if !is_empty_text(rule.as_str()) {
            out.push(rule);
            assert(out.deep_view() =~= before.push(rule@));
        }
        i = i + 1;
    }
    assert(parts.deep_view().len() == parts@.len());
    out
}

proof fn lemma_trim_back_ends(text: Seq<char>)
    ensures
        trim_back(text).len() > 0 ==> !is_white(trim_back(text).last()),
        exists|n: int| 0 <= n <= text.len() && trim_back(text) == #[trigger] text.take(n),
    decreases text.len(),
{
    if text.len() > 0 && is_white(text.last()) {
        lemma_trim_back_ends(text.drop_last());
        let n = choose|n: int|
            0 <= n <= text.drop_last().len() && trim_back(text.drop_last())
                == #[trigger] text.drop_last().take(n);
        assert(text.drop_last().take(n) =~= text.take(n));
        assert(trim_back(text) == text.take(n));
    } else {
        assert(text.take(text.len() as int) =~= text);
    }
}

proof fn lemma_trim_front_starts(text: Seq<char>)
    ensures
        trim_front(text).len() > 0 ==> !is_white(trim_front(text)[0]),
    decreases text.len(),
{
    if text.len() > 0 && is_white(text[0]) {
        lemma_trim_front_starts(text.skip(1));
    }
}

/// A trimmed text neither begins nor ends with white space.
pub proof fn trimmed_texts_have_no_white_ends(text: Seq<char>)
    ensures
        trim(text).len() > 0 ==> !is_white(trim(text)[0]) && !is_white(trim(text).last()),
{
    lemma_trim_front_starts(text);
    lemma_trim_back_ends(trim_front(text));
    let front = trim_front(text);
    let n = choose|n: int| 0 <= n <= front.len() && trim_back(front) == #[trigger] front.take(n);
    if trim(text).len() > 0 {
        assert(front.take(n)[0] == front[0]);
    }
}

proof fn lemma_rules_upto(parts: Seq<Seq<char>>, n: int)
    requires
        0 <= n <= parts.len(),
    ensures
        forall|i: int|
            0 <= i < rules_upto(parts, n).len() ==> (#[trigger] rules_upto(parts, n)[i]).len() > 0
                && !is_white(rules_upto(parts, n)[i][0]) && !is_white(
                rules_upto(parts, n)[i].last(),
            ),
    decreases n,
{
    if n > 0 {
        lemma_rules_upto(parts, n - 1);
        trimmed_texts_have_no_white_ends(parts[n - 1]);
        let before = rules_upto(parts, n - 1);
        let after = rules_upto(parts, n);
        assert forall|i: int| 0 <= i < after.len() implies (#[trigger] after[i]).len() > 0
            && !is_white(after[i][0]) && !is_white(after[i].last()) by {
            if i < before.len() {
                assert(after[i] == before[i]);
            }
        }
    }
}

/// Every rule that a text writes is there and neither begins nor ends with
/// white space.
pub proof fn written_rules_are_trimmed(text: Seq<char>, i: int)
    requires
        0 <= i < rules_in(text).len(),
    ensures
        rules_in(text)[i].len() > 0,
        !is_white(rules_in(text)[i][0]),
        !is_white(rules_in(text)[i].last()),
{
    lemma_rules_upto(pieces(text, ','), pieces(text, ',').len() as int);
}

/// Position of the first group at or after `from` with another name.
pub open spec fn other_group_from(groups: Seq<GroupView>, exclude: Seq<char>, from: int) -> Option<
    int,
>
    decreases groups.len() - from,
{
    if from < 0 || from >= groups.len() {
        None
    } else if groups[from].name != exclude {
        Some(from)
    } else {
        other_group_from(groups, exclude, from + 1)
    }
}

/// The trigger that ducking starts out with: the first other group, or none.
pub fn default_duck_trigger(groups: &Vec<GroupConfig>, exclude: &str) -> (r: String)
    ensures
        r@ == match other_group_from(groups.deep_view(), exclude@, 0) {
            Some(i) => groups.deep_view()[i].name,
            None => Seq::empty(),
        },
{
    let mut i: usize = 0;
    while i < groups.len()
        invariant
            i <= groups.len(),
            other_group_from(groups.deep_view(), exclude@, 0) == other_group_from(
                groups.deep_view(),
                exclude@,
                i as int,
            ),
        decreases groups.len() - i,
    {
        assert(groups.deep_view()[i as int].name == groups@[i as int].name@);
        if !same_text(groups[i].name.as_str(), exclude) {
            return groups[i].name.clone();
        }
        i = i + 1;
    }
    String::new()
}

/// A session is among the first `n`.
pub open spec fn is_among(sessions: Seq<SessionView>, n: int, s: SessionView) -> bool {
    exists|i: int| 0 <= i < n && #[trigger] sessions[i] == s
}

proof fn lemma_among(sessions: Seq<SessionView>, n: int, s: SessionView)
    requires
        0 < n <= sessions.len(),
    ensures
        is_among(sessions, n, s) <==> is_among(sessions, n - 1, s) || sessions[n - 1] == s,
{
    if is_among(sessions, n - 1, s) {
        let i = choose|i: int| 0 <= i < n - 1 && #[trigger] sessions[i] == s;
        assert(sessions[i] == s);
    }
}

/// Every session is in one place: among the unassigned ones exactly where no route
/// holds its process.
pub proof fn a_session_is_routed_or_unassigned(
    all: Seq<SessionView>,
    routes: Seq<(GroupId, Seq<SessionView>)>,
    n: int,
    s: SessionView,
)
    requires
        0 <= n <= all.len(),
    ensures
        unassigned_upto(all, routes, n).contains(s) <==> is_among(all, n, s) && !is_routed(
            routes,
            s.pid,
        ),
    decreases n,
{
    if n > 0 {
        a_session_is_routed_or_unassigned(all, routes, n - 1, s);
        lemma_among(all, n, s);
        let before = unassigned_upto(all, routes, n - 1);
        if !is_routed(routes, all[n - 1].pid) {
            lemma_session_pushed(before, all[n - 1], s);
        }
    }
}

proof fn lemma_session_pushed(before: Seq<SessionView>, last: SessionView, s: SessionView)
    ensures
        before.push(last).contains(s) <==> before.contains(s) || last == s,
{
    let now = before.push(last);
    assert(now[before.len() as int] == last);
    if before.contains(s) {
        let k = choose|k: int| 0 <= k < before.len() && before[k] == s;
        assert(now[k] == s);
    }
    if now.contains(s) && last != s {
        let k = choose|k: int| 0 <= k < now.len() && now[k] == s;
        assert(before[k] == s);
    }
}

/// A search leaves the sessions whose label or file name has the query in it, and
/// no others; one for nothing leaves them all.
pub proof fn a_search_leaves_what_it_finds(
    sessions: Seq<SessionView>,
    query: Seq<char>,
    n: int,
    s: SessionView,
)
    requires
        0 <= n <= sessions.len(),
    ensures
        found_upto(sessions, query, n).contains(s) <==> is_among(sessions, n, s) && (query.len()
            == 0 || occurs_in(lowercase(query), lowercase(label_of(s))) || occurs_in(
            lowercase(query),
            lowercase(s.file_name),
        )),
    decreases n,
{
    if n > 0 {
        a_search_leaves_what_it_finds(sessions, query, n - 1, s);
        lemma_among(sessions, n, s);
        let before = found_upto(sessions, query, n - 1);
        if found_by(sessions[n - 1], query) {
            lemma_session_pushed(before, sessions[n - 1], s);
        }
    }
}

} // verus!
