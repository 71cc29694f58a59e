//! Logical paths: sequences of components, taken from text without looking at
//! any file system.
use vstd::prelude::*;
use crate::text::chars_of;
use crate::text::find_char;
use crate::text::lemma_find_char;
use crate::text::lemma_find_char_unique;
use crate::text::same_text;

verus! {

/// A component of a path.
#[derive(Debug)]
pub enum Part {
    /// The root, `/`.
    RootDir,
    /// The directory itself, `.`; kept only where a path starts with it.
    CurDir,
    /// The parent directory, `..`.
    ParentDir,
    /// A name.
    Normal(String),
}

/// The model of a [`Part`].
#[verifier::ext_equal]
pub enum PartView {
    RootDir,
    CurDir,
    ParentDir,
    Normal(Seq<char>),
}

/// A path, as its components in order.
#[derive(Debug)]
pub struct LogicalPath {
    pub parts: Vec<Part>,
}

impl View for Part {
    type V = PartView;

    open spec fn view(&self) -> PartView {
        match *self {
            Part::RootDir => PartView::RootDir,
            Part::CurDir => PartView::CurDir,
            Part::ParentDir => PartView::ParentDir,
            Part::Normal(name) => PartView::Normal(name@),
        }
    }
}

impl View for LogicalPath {
    type V = Seq<PartView>;

    open spec fn view(&self) -> Seq<PartView> {
        part_views(self.parts@)
    }
}

/// The models of a list of components.
pub open spec fn part_views(parts: Seq<Part>) -> Seq<PartView> {
    Seq::new(parts.len(), |i: int| parts[i]@)
}

/// A text that can name a component: not empty, without `/`, and neither `.`
/// nor `..`.
pub open spec fn is_name(name: Seq<char>) -> bool {
    &&& name.len() > 0
    &&& !name.contains('/')
    &&& name != seq!['.']
    &&& name != seq!['.', '.']
}

/// The component lists that paths have: a root or a `.` stands only first, and
/// every name is one.
pub open spec fn well_formed(path: Seq<PartView>) -> bool {
    forall|i: int|
        0 <= i < path.len() ==> match #[trigger] path[i] {
            PartView::RootDir => i == 0,
            PartView::CurDir => i == 0,
            PartView::ParentDir => true,
            PartView::Normal(name) => is_name(name),
        }
}

/// The path starts at the root.
pub open spec fn is_rooted(path: Seq<PartView>) -> bool {
    path.len() > 0 && path[0] is RootDir
}

/// One more component at the end of a path: a root starts over, a `.` counts
/// only in an empty path, anything else is appended.
pub open spec fn push_part(path: Seq<PartView>, part: PartView) -> Seq<PartView> {
    match part {
        PartView::RootDir => seq![part],
        PartView::CurDir => if path.len() == 0 {
            seq![part]
        } else {
            path
        },
        _ => path.push(part),
    }
}

/// The path `other` seen from `path`.
pub open spec fn joined(path: Seq<PartView>, other: Seq<PartView>) -> Seq<PartView>
    decreases other.len(),
{
    if other.len() == 0 {
        path
    } else {
        push_part(joined(path, other.drop_last()), other.last())
    }
}

/// The component that a piece of text between slashes stands for.
pub open spec fn part_of(segment: Seq<char>) -> PartView {
    if segment == seq!['.'] {
        PartView::CurDir
    } else if segment == seq!['.', '.'] {
        PartView::ParentDir
    } else {
        PartView::Normal(segment)
    }
}

/// `path`, followed by the components of the slash-separated `text`; empty
/// pieces count for nothing.
pub open spec fn lex_from(path: Seq<PartView>, text: Seq<char>) -> Seq<PartView>
    decreases text.len(),
{
    let end = find_char(text, '/');
    let next = if end == 0 {
        path
    } else {
        push_part(path, part_of(text.take(end)))
    };
    if 0 <= end < text.len() {
        lex_from(next, text.skip(end + 1))
    } else {
        next
    }
}

/// The components of a path text.
pub open spec fn lexed(text: Seq<char>) -> Seq<PartView> {
    if text.len() > 0 && text[0] == '/' {
        lex_from(seq![PartView::RootDir], text.skip(1))
    } else {
        lex_from(seq![], text)
    }
}

/// The path without its last component, unless it is empty or ends at the
/// root.
pub open spec fn parent_of(path: Seq<PartView>) -> Option<Seq<PartView>> {
    if path.len() == 0 || path.last() is RootDir {
        None
    } else {
        Some(path.drop_last())
    }
}

/// The text of one component.
pub open spec fn part_text(part: PartView) -> Seq<char> {
    match part {
        PartView::RootDir => seq!['/'],
        PartView::CurDir => seq!['.'],
        PartView::ParentDir => seq!['.', '.'],
        PartView::Normal(name) => name,
    }
}

/// The texts of the components with a slash between each two.
pub open spec fn slashed(path: Seq<PartView>) -> Seq<char>
    decreases path.len(),
{
    if path.len() == 0 {
        seq![]
    } else if path.len() == 1 {
        part_text(path[0])
    } else {
        slashed(path.drop_last()) + seq!['/'] + part_text(path.last())
    }
}

/// The text of a path: the components with slashes between them, behind the
/// slash of the root if there is one.
pub open spec fn display_text(path: Seq<PartView>) -> Seq<char> {
    if is_rooted(path) {
        seq!['/'] + slashed(path.skip(1))
    } else {
        slashed(path)
    }
}

/// How many components two paths have in common at their start.
pub open spec fn common_len(a: Seq<PartView>, b: Seq<PartView>) -> int
    decreases a.len(),
{
    if a.len() == 0 || b.len() == 0 || a[0] != b[0] {
        0
    } else {
        1 + common_len(a.skip(1), b.skip(1))
    }
}

/// `n` times `..`.
pub open spec fn ups(n: int) -> Seq<PartView> {
    Seq::new(n as nat, |i: int| PartView::ParentDir)
}

/// The components from the end of `base` to the end of `target`, where the two
/// have nothing more in common: out of `base`, then into `target`. A `.` in
/// `base` leaves the component of `target` that stands against it as it is, and
/// there is no way out of a `..`.
pub open spec fn way(target: Seq<PartView>, base: Seq<PartView>) -> Option<Seq<PartView>>
    decreases base.len(),
{
    if target.len() == 0 {
        Some(ups(base.len() as int))
    } else if base.len() == 0 {
        Some(target)
    } else {
        match base[0] {
            PartView::CurDir => match way(target.skip(1), base.skip(1)) {
                Some(rest) => Some(seq![target[0]] + rest),
                None => None,
            },
            PartView::ParentDir => None,
            _ => Some(ups(base.len() as int) + target),
        }
    }
}

/// The path to `target` as seen from `base`, if there is one: a target with a
/// root is its own path from a base without, and the other way round there is
/// none.
pub open spec fn diff(target: Seq<PartView>, base: Seq<PartView>) -> Option<Seq<PartView>> {
    if is_rooted(target) != is_rooted(base) {
        if is_rooted(target) {
            Some(target)
        } else {
            None
        }
    } else {
        let common = common_len(target, base);
        match way(target.skip(common), base.skip(common)) {
            Some(parts) => Some(joined(seq![], parts)),
            None => None,
        }
    }
}

/// `common_len` marks the longest common prefix.
pub proof fn lemma_common_len(a: Seq<PartView>, b: Seq<PartView>)
    ensures
        0 <= common_len(a, b) <= a.len(),
        common_len(a, b) <= b.len(),
        forall|i: int| 0 <= i < common_len(a, b) ==> a[i] == b[i],
        common_len(a, b) < a.len() && common_len(a, b) < b.len() ==> a[common_len(a, b)]
            != b[common_len(a, b)],
    decreases a.len(),
{
    if a.len() == 0 || b.len() == 0 || a[0] != b[0] {
    } else {
        lemma_common_len(a.skip(1), b.skip(1));
        let n = common_len(a, b);
        assert forall|i: int| 0 <= i < n implies a[i] == b[i] by {
            if i > 0 {
                assert(a.skip(1)[i - 1] == b.skip(1)[i - 1]);
            }
        }
        if n < a.len() && n < b.len() {
            assert(a.skip(1)[n - 1] != b.skip(1)[n - 1]);
        }
    }
}

/// A common prefix after which the paths part is what `common_len` counts.
proof fn lemma_common_len_unique(a: Seq<PartView>, b: Seq<PartView>, n: int)
    requires
        0 <= n <= a.len(),
        n <= b.len(),
        forall|i: int| 0 <= i < n ==> a[i] == b[i],
        n < a.len() && n < b.len() ==> a[n] != b[n],
    ensures
        common_len(a, b) == n,
{
    lemma_common_len(a, b);
    let m = common_len(a, b);
    if m < n {
        assert(a[m] == b[m]);
    } else if n < m {
        assert(a[n] == b[n]);
    }
}

/// Joining well-formed paths gives a well-formed path.
pub proof fn lemma_joined_well_formed(path: Seq<PartView>, other: Seq<PartView>)
    requires
        well_formed(path),
        well_formed(other),
    ensures
        well_formed(joined(path, other)),
{
    lemma_joined_names(path, other);
}

proof fn lemma_push_part_well_formed(path: Seq<PartView>, part: PartView)
    requires
        well_formed(path),
        part matches PartView::Normal(name) ==> is_name(name),
    ensures
        well_formed(push_part(path, part)),
{
    let next = push_part(path, part);
    assert forall|i: int| 0 <= i < next.len() implies match #[trigger] next[i] {
        PartView::RootDir => i == 0,
        PartView::CurDir => i == 0,
        PartView::ParentDir => true,
        PartView::Normal(name) => is_name(name),
    } by {
        if i < path.len() && next.len() > 1 {
            assert(next[i] == path[i]);
        }
    }
}

/// Taking components from text gives a well-formed path.
proof fn lemma_lex_from_well_formed(path: Seq<PartView>, text: Seq<char>)
    requires
        well_formed(path),
    ensures
        well_formed(lex_from(path, text)),
    decreases text.len(),
{
    let end = find_char(text, '/');
    lemma_find_char(text, '/');
    let segment = text.take(end);
    if end > 0 {
        assert forall|i: int| 0 <= i < segment.len() implies segment[i] != '/' by {
            assert(segment[i] == text[i]);
        }
        lemma_push_part_well_formed(path, part_of(segment));
    }
    if end < text.len() {
        let next = if end == 0 {
            path
        } else {
            push_part(path, part_of(segment))
        };
        lemma_lex_from_well_formed(next, text.skip(end + 1));
    }
}

/// The components of a path text are well-formed.
pub proof fn lemma_lexed_well_formed(text: Seq<char>)
    ensures
        well_formed(lexed(text)),
{
    if text.len() > 0 && text[0] == '/' {
        lemma_lex_from_well_formed(seq![PartView::RootDir], text.skip(1));
    } else {
        lemma_lex_from_well_formed(seq![], text);
    }
}

/// Whether two components are the same.
fn same_part(a: &Part, b: &Part) -> (res: bool)
    ensures
        res == (a@ == b@),
{
    match (a, b) {
        (Part::RootDir, Part::RootDir) => true,
        (Part::CurDir, Part::CurDir) => true,
        (Part::ParentDir, Part::ParentDir) => true,
        (Part::Normal(x), Part::Normal(y)) => same_text(x.as_str(), y.as_str()),
        _ => false,
    }
}

impl Part {
    /// A copy of the component.
    pub fn copy(&self) -> (res: Part)
        ensures
            res@ == self@,
    {
        match self {
            Part::RootDir => Part::RootDir,
            Part::CurDir => Part::CurDir,
            Part::ParentDir => Part::ParentDir,
            Part::Normal(name) => Part::Normal(name.clone()),
        }
    }

    /// The text of the component.
    pub fn text(&self) -> (res: &str)
        ensures
            res@ == part_text(self@),
    {
        proof {
            reveal_strlit("/");
            reveal_strlit(".");
            reveal_strlit("..");
            assert("/"@ =~= seq!['/']);
            assert("."@ =~= seq!['.']);
            assert(".."@ =~= seq!['.', '.']);
        }
        match self {
            Part::RootDir => "/",
            Part::CurDir => ".",
            Part::ParentDir => "..",
            Part::Normal(name) => name.as_str(),
        }
    }
}

/// The texts of the components from index `from` on, with a slash between each
/// two.
fn slashed_from(parts: &Vec<Part>, from: usize) -> (res: String)
    requires
        from <= parts.len(),
    ensures
        res@ == slashed(part_views(parts@).skip(from as int)),
{
    let ghost path = part_views(parts@).skip(from as int);
    let mut text = String::new();
    assert(path.take(0) =~= Seq::<PartView>::empty());
    for i in from..parts.len()
        invariant
            from <= i <= parts.len(),
            path == part_views(parts@).skip(from as int),
            text@ == slashed(path.take(i - from)),
    {
        proof {
            reveal_strlit("/");
            assert("/"@ =~= seq!['/']);
            assert(path.take(i + 1 - from).drop_last() =~= path.take(i - from));
            assert(path.take(i + 1 - from).last() == parts@[i as int]@);
        }
        if i > from {
            text.append("/");
        }
        text.append(parts[i].text());
        assert(text@ =~= slashed(path.take(i + 1 - from)));
    }
    assert(path.take(path.len() as int) =~= path);
    text
}

impl LogicalPath {
    /// Appends one component: a root starts over, a `.` counts only in an
    /// empty path.
    pub fn push(&mut self, part: Part)
        ensures
            final(self)@ == push_part(old(self)@, part@),
    {
        match part {
            Part::RootDir => {
                self.parts.clear();
                self.parts.push(Part::RootDir);
            },
            Part::CurDir => {
                if self.parts.len() == 0 {
                    self.parts.push(Part::CurDir);
                }
            },
            _ => {
                self.parts.push(part);
            },
        }
        assert(self@ =~= push_part(old(self)@, part@));
    }

    /// Takes a path from slash-separated text. Repeated and trailing slashes
    /// count for nothing, and so does a `.` but at the very start.
    pub fn parse(text: &str) -> (res: LogicalPath)
        ensures
            res@ == lexed(text@),
            well_formed(res@),
    {
        let chars = chars_of(text);
        let mut path = LogicalPath { parts: Vec::new() };
        let mut at: usize = 0;
        if chars.len() > 0 && chars[0] == '/' {
            path.push(Part::RootDir);
            at = 1;
        }
        assert(at == 0 ==> path@ =~= Seq::<PartView>::empty());
        assert(text@.skip(0) =~= text@);
        loop
            invariant_except_break
                lex_from(path@, text@.skip(at as int)) == lexed(text@),
            invariant
                chars@ == text@,
                at <= chars.len(),
            ensures
                path@ == lexed(text@),
            decreases chars.len() - at,
        {
            let mut end: usize = at;
            while end < chars.len() && chars[end] != '/'
                invariant
                    chars@ == text@,
                    at <= end <= chars.len(),
                    forall|i: int| at <= i < end ==> text@[i] != '/',
                decreases chars.len() - end,
            {
                end = end + 1;
            }
            let ghost rest = text@.skip(at as int);
            proof {
                assert forall|i: int| 0 <= i < end - at implies rest[i] != '/' by {
                    assert(rest[i] == text@[at + i]);
                }
                lemma_find_char_unique(rest, '/', end - at);
                assert(rest.take(end - at) =~= text@.subrange(at as int, end as int));
            }
            if end > at {
                let segment = text.substring_char(at, end);
                let part = if same_text(segment, ".") {
                    Part::CurDir
                } else if same_text(segment, "..") {
                    Part::ParentDir
                } else {
                    Part::Normal(segment.to_owned())
                };
                proof {
                    reveal_strlit(".");
                    reveal_strlit("..");
                    assert("."@ =~= seq!['.']);
                    assert(".."@ =~= seq!['.', '.']);
                    assert(part@ == part_of(segment@));
                }
                path.push(part);
            }
            if end == chars.len() {
                break;
            }
            proof {
                assert(rest.skip(end - at + 1) =~= text@.skip(end + 1));
            }
            at = end + 1;
        }
        proof {
            lemma_lexed_well_formed(text@);
        }
        path
    }

    /// A copy of the path.
    pub fn copy(&self) -> (res: LogicalPath)
        ensures
            res@ == self@,
    {
        let mut parts: Vec<Part> = Vec::new();
        for i in 0..self.parts.len()
            invariant
                parts@.len() == i,
                forall|j: int| 0 <= j < i ==> (#[trigger] parts@[j])@ == self.parts@[j]@,
        {
            parts.push(self.parts[i].copy());
        }
        let res = LogicalPath { parts };
        assert(res@ =~= self@);
        res
    }

    /// The texts of the components with a slash between each two, the slash of
    /// a root among them.
    pub fn slashed(&self) -> (res: String)
        ensures
            res@ == slashed(self@),
    {
        assert(self@.skip(0) =~= self@);
        slashed_from(&self.parts, 0)
    }

    /// The text of the path.
    pub fn display(&self) -> (res: String)
        ensures
            res@ == display_text(self@),
    {
        proof {
            reveal_strlit("/");
            assert("/"@ =~= seq!['/']);
        }
        if self.parts.len() > 0 {
            assert(self@[0] == self.parts@[0]@);
            if let Part::RootDir = self.parts[0] {
                return "/".to_owned().concat(slashed_from(&self.parts, 1).as_str());
            }
        }
        self.slashed()
    }

    /// The path without its last component, or `None` if it is empty or ends
    /// at the root.
    pub fn parent(&self) -> (res: Option<LogicalPath>)
        ensures
            (match res {
                Some(parent) => parent_of(self@) == Some(parent@),
                None => parent_of(self@) is None,
            }),
            res is None <==> self@.len() == 0 || self@.last() == PartView::RootDir,
            res is Some ==> res->0@ == self@.drop_last(),
            well_formed(self@) && res is Some ==> well_formed(res->0@),
    {
        let mut path = self.copy();
        let last = path.parts.pop();
        proof {
            if last is Some {
                assert(self@.last() == last->0@);
                assert(path@ =~= self@.drop_last());
                if well_formed(self@) {
                    assert forall|i: int| 0 <= i < path@.len() implies match #[trigger] path@[i] {
                        PartView::RootDir => i == 0,
                        PartView::CurDir => i == 0,
                        PartView::ParentDir => true,
                        PartView::Normal(name) => is_name(name),
                    } by {
                        assert(path@[i] == self@[i]);
                    }
                }
            }
        }
        match last {
            None | Some(Part::RootDir) => None,
            Some(_) => Some(path),
        }
    }

    /// The path `other` seen from this one: `other` itself if it starts at the
    /// root, else the components of both, one after the other.
    pub fn join(&self, other: &LogicalPath) -> (res: LogicalPath)
        ensures
            res@ == joined(self@, other@),
            well_formed(self@) && well_formed(other@) ==> well_formed(res@),
    {
        let mut path = self.copy();
        assert(other@.take(0) =~= Seq::<PartView>::empty());
        for i in 0..other.parts.len()
            invariant
                path@ == joined(self@, other@.take(i as int)),
        {
            path.push(other.parts[i].copy());
            assert(other@.take(i + 1).drop_last() =~= other@.take(i as int));
            assert(other@.take(i + 1).last() == other.parts@[i as int]@);
        }
        assert(other@.take(other@.len() as int) =~= other@);
        proof {
            if well_formed(self@) && well_formed(other@) {
                lemma_joined_well_formed(self@, other@);
            }
        }
        path
    }
}

/// Whether the path starts at the root.
fn starts_at_root(path: &LogicalPath) -> (res: bool)
    ensures
        res == is_rooted(path@),
{
    if path.parts.len() == 0 {
        return false;
    }
    assert(path@[0] == path.parts@[0]@);
    match path.parts[0] {
        Part::RootDir => true,
        _ => false,
    }
}

/// The path to `target` as seen from `base`, or `None` if `target` has no root
/// but `base` has one, or if `base` leaves what the two share by a `..`.
pub fn diff_paths(target: &LogicalPath, base: &LogicalPath) -> (res: Option<LogicalPath>)
    ensures
        (match res {
            Some(path) => diff(target@, base@) == Some(path@),
            None => diff(target@, base@) is None,
        }),
{
    if starts_at_root(target) != starts_at_root(base) {
        return if starts_at_root(target) {
            Some(target.copy())
        } else {
            None
        };
    }
    let mut common: usize = 0;
    while common < target.parts.len() && common < base.parts.len() && same_part(
        &target.parts[common],
        &base.parts[common],
    )
        invariant
            common <= target.parts.len(),
            common <= base.parts.len(),
            forall|i: int| 0 <= i < common ==> target@[i] == base@[i],
        decreases target.parts.len() - common,
    {
        assert(target@[common as int] == target.parts@[common as int]@);
        assert(base@[common as int] == base.parts@[common as int]@);
        common = common + 1;
    }
    proof {
        if common < target.parts.len() && common < base.parts.len() {
            assert(target@[common as int] == target.parts@[common as int]@);
            assert(base@[common as int] == base.parts@[common as int]@);
        }
        lemma_common_len_unique(target@, base@, common as int);
    }
    let mut result = LogicalPath { parts: Vec::new() };
    let mut at: usize = common;
    let ghost whole = way(target@.skip(common as int), base@.skip(common as int));
    // What the components so far leave to be done.
    let ghost mut done = Seq::<PartView>::empty();
    assert(result@ =~= Seq::<PartView>::empty());
    while at < target.parts.len() && at < base.parts.len() && is_here(&base.parts[at])
        invariant
            at <= target.parts.len(),
            at <= base.parts.len(),
            result@ == joined(seq![], done),
            whole == behind(done, way(target@.skip(at as int), base@.skip(at as int))),
        decreases base.parts.len() - at,
    {
        proof {
            let t = target@.skip(at as int);
            let b = base@.skip(at as int);
            assert(t[0] == target.parts@[at as int]@);
            assert(b[0] == base.parts@[at as int]@);
            assert(t.skip(1) =~= target@.skip(at + 1));
            assert(b.skip(1) =~= base@.skip(at + 1));
            assert(done.push(t[0]).drop_last() =~= done);
            if let Some(rest) = way(t.skip(1), b.skip(1)) {
                assert(done + (seq![t[0]] + rest) =~= done.push(t[0]) + rest);
            }
            done = done.push(t[0]);
        }
        result.push(target.parts[at].copy());
        at = at + 1;
    }
    let ghost rest = target@.skip(at as int);
    let ghost left = base@.skip(at as int);
    if at < target.parts.len() && at < base.parts.len() {
        assert(left[0] == base.parts@[at as int]@);
        if let Part::ParentDir = base.parts[at] {
            return None;
        }
    }
    let up_count: usize = base.parts.len() - at;
    let ghost start = result@;
    assert(ups(0) =~= Seq::<PartView>::empty());
    for i in 0..up_count
        invariant
            result@ == joined(start, ups(i as int)),
    {
        result.push(Part::ParentDir);
        assert(ups(i + 1).drop_last() =~= ups(i as int));
    }
    let ghost outside = result@;
    assert(rest.take(0) =~= Seq::<PartView>::empty());
    for i in at..target.parts.len()
        invariant
            at <= i <= target.parts.len(),
            rest == target@.skip(at as int),
            result@ == joined(outside, rest.take(i - at)),
    {
        result.push(target.parts[i].copy());
        assert(rest.take(i + 1 - at).drop_last() =~= rest.take(i - at));
        assert(rest.take(i + 1 - at).last() == target.parts@[i as int]@);
    }
    proof {
        let n = up_count as int;
        assert(rest.take(rest.len() as int) =~= rest);
        lemma_joined_concat(start, ups(n), rest);
        lemma_joined_concat(seq![], done, ups(n) + rest);
        assert(ups(0) + rest =~= rest);
        assert(ups(n) + Seq::<PartView>::empty() =~= ups(n));
        if rest.len() == 0 {
            assert(rest =~= Seq::<PartView>::empty());
        }
        assert(way(rest, left) == Some(ups(n) + rest));
    }
    Some(result)
}

/// What comes of `parts` when `done` stands before them.
spec fn behind(done: Seq<PartView>, parts: Option<Seq<PartView>>) -> Option<Seq<PartView>> {
    match parts {
        Some(rest) => Some(done + rest),
        None => None,
    }
}

/// Whether a component is `.`.
fn is_here(part: &Part) -> (res: bool)
    ensures
        res == (part@ is CurDir),
{
    match part {
        Part::CurDir => true,
        _ => false,
    }
}

/// Joining one list after the other is joining both.
proof fn lemma_joined_concat(path: Seq<PartView>, a: Seq<PartView>, b: Seq<PartView>)
    ensures
        joined(path, a + b) == joined(joined(path, a), b),
    decreases b.len(),
{
    if b.len() == 0 {
        assert(a + b =~= a);
    } else {
        lemma_joined_concat(path, a, b.drop_last());
        assert((a + b).drop_last() =~= a + b.drop_last());
        assert((a + b).last() == b.last());
    }
}

/// The components of a way to a well-formed target can stand in a path.
proof fn lemma_way_names(target: Seq<PartView>, base: Seq<PartView>)
    requires
        forall|i: int|
            0 <= i < target.len() ==> ((#[trigger] target[i]) matches PartView::Normal(name)
                ==> is_name(name)),
    ensures
        way(target, base) matches Some(parts) ==> forall|i: int|
            0 <= i < parts.len() ==> ((#[trigger] parts[i]) matches PartView::Normal(name)
                ==> is_name(name)),
    decreases base.len(),
{
    if target.len() > 0 && base.len() > 0 && base[0] is CurDir {
        let rest = target.skip(1);
        assert forall|i: int| 0 <= i < rest.len() implies ((
        #[trigger] rest[i]) matches PartView::Normal(name) ==> is_name(name)) by {
            assert(rest[i] == target[i + 1]);
        }
        lemma_way_names(rest, base.skip(1));
        assert(target[0] matches PartView::Normal(name) ==> is_name(name));
    }
}

proof fn lemma_joined_names(path: Seq<PartView>, other: Seq<PartView>)
    requires
        well_formed(path),
        forall|i: int|
            0 <= i < other.len() ==> ((#[trigger] other[i]) matches PartView::Normal(name)
                ==> is_name(name)),
    ensures
        well_formed(joined(path, other)),
    decreases other.len(),
{
    if other.len() > 0 {
        let init = other.drop_last();
        assert forall|i: int| 0 <= i < init.len() implies ((
        #[trigger] init[i]) matches PartView::Normal(name) ==> is_name(name)) by {
            assert(init[i] == other[i]);
        }
        lemma_joined_names(path, init);
        assert(other.last() == other[other.len() - 1]);
        lemma_push_part_well_formed(joined(path, init), other.last());
    }
}

/// The path from anywhere to a well-formed target is well-formed.
pub proof fn lemma_diff_well_formed(target: Seq<PartView>, base: Seq<PartView>)
    requires
        well_formed(target),
    ensures
        diff(target, base) matches Some(path) ==> well_formed(path),
{
    lemma_common_len(target, base);
    let common = common_len(target, base);
    let rest = target.skip(common);
    assert forall|i: int| 0 <= i < rest.len() implies ((
    #[trigger] rest[i]) matches PartView::Normal(name) ==> is_name(name)) by {
        assert(rest[i] == target[common + i]);
    }
    lemma_way_names(rest, base.skip(common));
    if let Some(parts) = way(rest, base.skip(common)) {
        lemma_joined_names(seq![], parts);
    }
}

} // verus!
