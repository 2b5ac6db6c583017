//! Paths, as bytes with slashes between the components. Where a system knows
//! another separator too, its paths get slashes before they come here.
//!
//! A path is a sequence of components. Repeated separators count once, a
//! separator at the end counts for nothing, and a `.` is dropped unless the
//! path begins with it. All of it is lexical: nothing here looks at a disk.

use vstd::prelude::*;
use vstd::utf8::*;
use crate::text;

verus! {

/// The byte that separates the components of a path.
pub const SEPARATOR: u8 = 47;

/// The byte of a full stop.
pub const DOT: u8 = 46;

/// A path.
#[derive(Debug, Hash, PartialEq, Eq)]
pub struct PathName {
    pub bytes: Vec<u8>,
}

impl View for PathName {
    type V = Seq<u8>;

    open spec fn view(&self) -> Seq<u8> {
        self.bytes@
    }
}

// ---- components -------------------------------------------------------------

/// Where the part of a path begins that follows its root, or the `.` that it
/// starts with.
pub open spec fn body_start(p: Seq<u8>) -> int {
    if p.len() > 0 && p[0] == SEPARATOR {
        1
    } else if p.len() > 0 && p[0] == DOT && (p.len() == 1 || p[1] == SEPARATOR) {
        1
    } else {
        0
    }
}

/// Where the last stretch without a separator begins among the bytes from
/// `start` up to `end`.
pub open spec fn piece_start(p: Seq<u8>, start: int, end: int) -> int
    decreases end - start,
{
    if end <= start {
        start
    } else if p[end - 1] == SEPARATOR {
        end
    } else {
        piece_start(p, start, end - 1)
    }
}

/// Where a path ends once its last stretch, which begins at `at`, is taken off
/// together with the separator before it.
pub open spec fn before_piece(start: int, at: int) -> int {
    if at > start {
        at - 1
    } else {
        start
    }
}

/// Whether a stretch between separators stands for nothing.
pub open spec fn is_trivial(piece: Seq<u8>) -> bool {
    piece.len() == 0 || piece == seq![DOT]
}

/// A piece begins between `start` and `end`, holds no separator, and is
/// preceded by one unless it begins at `start`.
pub proof fn lemma_piece_start(p: Seq<u8>, start: int, end: int)
    requires
        start <= end,
    ensures
        start <= piece_start(p, start, end) <= end,
        forall|i: int| piece_start(p, start, end) <= i < end ==> p[i] != SEPARATOR,
        piece_start(p, start, end) > start ==> p[piece_start(p, start, end) - 1] == SEPARATOR,
    decreases end - start,
{
    if end > start && p[end - 1] != SEPARATOR {
        lemma_piece_start(p, start, end - 1);
    }
}

/// Where the last stretch that stands for something ends; `start` if there is
/// none.
pub open spec fn content_end(p: Seq<u8>, start: int, end: int) -> int
    decreases end - start,
{
    if end <= start {
        start
    } else {
        let at = piece_start(p, start, end);
        proof {
            lemma_piece_start(p, start, end);
        }
        if is_trivial(p.subrange(at, end)) {
            content_end(p, start, before_piece(start, at))
        } else {
            end
        }
    }
}

/// The content ends within the bounds, and its last piece stands for
/// something.
pub proof fn lemma_content_end(p: Seq<u8>, start: int, end: int)
    requires
        start <= end,
    ensures
        start <= content_end(p, start, end) <= end,
        content_end(p, start, end) > start ==> !is_trivial(
            p.subrange(
                piece_start(p, start, content_end(p, start, end)),
                content_end(p, start, end),
            ),
        ),
    decreases end - start,
{
    if end > start {
        let at = piece_start(p, start, end);
        lemma_piece_start(p, start, end);
        if is_trivial(p.subrange(at, end)) {
            lemma_content_end(p, start, before_piece(start, at));
        }
    }
}

/// The components among the bytes up to `end`: what comes before `start` as
/// one component, then the pieces.
pub open spec fn components_to(p: Seq<u8>, start: int, end: int) -> Seq<Seq<u8>>
    decreases end - start,
{
    let last = content_end(p, start, end);
    if end <= start || last <= start {
        if start > 0 {
            seq![p.take(start)]
        } else {
            Seq::empty()
        }
    } else {
        let at = piece_start(p, start, last);
        proof {
            lemma_content_end(p, start, end);
            lemma_piece_start(p, start, last);
        }
        components_to(p, start, before_piece(start, at)).push(p.subrange(at, last))
    }
}

/// The components of a path, the root as a lone separator.
pub open spec fn components(p: Seq<u8>) -> Seq<Seq<u8>> {
    components_to(p, body_start(p), p.len() as int)
}

/// The last component of a path, if it is a name.
pub open spec fn file_name(p: Seq<u8>) -> Option<Seq<u8>> {
    let start = body_start(p);
    let last = content_end(p, start, p.len() as int);
    let name = p.subrange(piece_start(p, start, last), last);
    if last <= start || name == seq![DOT, DOT] {
        None
    } else {
        Some(name)
    }
}

/// The path without its last component, if it has one to take off.
pub open spec fn parent(p: Seq<u8>) -> Option<Seq<u8>> {
    let start = body_start(p);
    let last = content_end(p, start, p.len() as int);
    if last > start {
        let cut = before_piece(start, piece_start(p, start, last));
        Some(p.take(content_end(p, start, cut)))
    } else if start == 1 && p[0] == DOT {
        Some(Seq::empty())
    } else {
        None
    }
}

/// The directory that an entry counts as being in.
pub open spec fn directory(p: Seq<u8>) -> Seq<u8> {
    match parent(p) {
        Some(dir) => dir,
        None => Seq::empty(),
    }
}

/// A path below a directory: `name` itself if it starts at the root.
pub open spec fn join(dir: Seq<u8>, name: Seq<u8>) -> Seq<u8> {
    if name.len() > 0 && name[0] == SEPARATOR {
        name
    } else if dir.len() > 0 && dir.last() != SEPARATOR {
        dir.push(SEPARATOR) + name
    } else {
        dir + name
    }
}

/// How many components a path has below `root`; all of them if it does not
/// lie below it.
pub open spec fn depth_below(p: Seq<u8>, root: Seq<u8>) -> nat {
    if text::starts_with(components(p), components(root)) {
        (components(p).len() - components(root).len()) as nat
    } else {
        components(p).len()
    }
}

// ---- laws -------------------------------------------------------------------

/// Pieces and components up to `end` depend on the bytes before `end` alone.
proof fn lemma_prefix_decides(p: Seq<u8>, q: Seq<u8>, start: int, end: int)
    requires
        0 <= start <= end <= p.len(),
        end <= q.len(),
        p.take(end) == q.take(end),
    ensures
        piece_start(p, start, end) == piece_start(q, start, end),
        content_end(p, start, end) == content_end(q, start, end),
        components_to(p, start, end) == components_to(q, start, end),
    decreases end - start,
{
    assert forall|i: int| 0 <= i < end implies p[i] == q[i] by {
        assert(p.take(end)[i] == p[i]);
        assert(q.take(end)[i] == q[i]);
    }
    if end > start {
        assert(p.take(end - 1) == q.take(end - 1));
        lemma_prefix_decides(p, q, start, end - 1);
        lemma_piece_start(p, start, end);
        let at = piece_start(p, start, end);
        assert(p.subrange(at, end) == q.subrange(at, end));
        let cut = before_piece(start, at);
        assert(p.take(cut) == q.take(cut));
        lemma_prefix_decides(p, q, start, cut);
        lemma_content_end(p, start, end);
        let last = content_end(p, start, end);
        if last > start {
            lemma_piece_start(p, start, last);
            let at = piece_start(p, start, last);
            let cut = before_piece(start, at);
            assert(p.take(last) == q.take(last));
            assert(p.take(cut) == q.take(cut));
            assert(p.subrange(at, last) == q.subrange(at, last));
            lemma_prefix_decides(p, q, start, cut);
            if last < end {
                lemma_prefix_decides(p, q, start, last);
            }
        }
    }
    assert(p.take(start) == q.take(start));
}

/// A path cut off at the end of its content keeps the components before the
/// cut.
proof fn lemma_cut_keeps_components(p: Seq<u8>, cut: int)
    requires
        body_start(p) <= cut <= p.len(),
    ensures
        components(p.take(content_end(p, body_start(p), cut))) == components_to(
            p,
            body_start(p),
            cut,
        ),
{
    let start = body_start(p);
    let end = content_end(p, start, cut);
    let q = p.take(end);
    lemma_content_end(p, start, cut);
    if end > start {
        lemma_piece_start(p, start, end);
        if start == 0 && end == 1 {
            assert(p[0] != SEPARATOR);
            assert(piece_start(p, 0, 1) == 0);
            if p[0] == DOT {
                assert(p.subrange(0, 1) =~= seq![DOT]);
            }
        }
    }
    assert(body_start(q) == start);
    assert(q.take(end) == p.take(end));
    lemma_prefix_decides(p, q, start, end);
}

/// A path whose last component is a name consists of the components of its
/// directory and that name.
pub proof fn law_directory_and_name(p: Seq<u8>)
    requires
        file_name(p) is Some,
    ensures
        parent(p) == Some(directory(p)),
        components(p) == components(directory(p)).push(file_name(p)->0),
{
    let start = body_start(p);
    let last = content_end(p, start, p.len() as int);
    lemma_content_end(p, start, p.len() as int);
    lemma_piece_start(p, start, last);
    lemma_cut_keeps_components(p, before_piece(start, piece_start(p, start, last)));
}

/// Whether the bytes can be the name of an entry in a directory.
pub open spec fn is_plain_name(name: Seq<u8>) -> bool {
    &&& name.len() > 0
    &&& !name.contains(SEPARATOR)
    &&& name != seq![DOT]
    &&& name != seq![DOT, DOT]
}

/// The name that a path ends in can be the name of an entry.
pub proof fn law_file_name_is_plain(p: Seq<u8>)
    requires
        file_name(p) is Some,
    ensures
        is_plain_name(file_name(p)->0),
{
    let name = file_name(p)->0;
    let start = body_start(p);
    let last = content_end(p, start, p.len() as int);
    lemma_content_end(p, start, p.len() as int);
    lemma_piece_start(p, start, last);
    let at = piece_start(p, start, last);
    assert(!is_trivial(name));
    if name.contains(SEPARATOR) {
        let i = choose|i: int| 0 <= i < name.len() && name[i] == SEPARATOR;
        assert(p[at + i] == SEPARATOR);
    }
}

/// What is joined to a directory is in that directory, under its own name.
pub proof fn law_join_stays_in_directory(dir: Seq<u8>, name: Seq<u8>)
    requires
        is_plain_name(name),
    ensures
        file_name(join(dir, name)) == Some(name),
        components(join(dir, name)) == components(dir).push(name),
        components(directory(join(dir, name))) == components(dir),
{
    let p = join(dir, name);
    let start = body_start(p);
    let len = p.len() as int;
    let at = len - name.len();
    assert forall|i: int| at <= i < len implies p[i] != SEPARATOR by {
        assert(name[i - at] == p[i]);
        assert(name.contains(name[i - at]));
    }
    assert(name[0] != SEPARATOR) by {
        assert(name.contains(name[0]));
    }
    if name.len() == 1 {
        assert(name =~= seq![name[0]]);
    } else {
        assert(name.contains(name[1]));
    }
    assert(body_start(p) == body_start(dir));
    lemma_piece_start(p, start, len);
    let found = piece_start(p, start, len);
    if found > at {
        assert(p[found - 1] != SEPARATOR);
    } else if found < at {
        assert(dir.len() > 0);
        assert(p[at - 1] == SEPARATOR);
    }
    assert(p.subrange(at, len) =~= name);
    let cut = before_piece(start, at);
    if dir.len() > 0 {
        if dir.last() == SEPARATOR {
            assert(p.take(dir.len() as int) == dir.take(dir.len() as int));
            let whole = dir.len() as int;
            if at > start {
                assert(p.take(cut) == dir.take(cut));
                lemma_prefix_decides(p, dir, start, cut);
                assert(piece_start(dir, start, whole) == whole);
                assert(dir.subrange(whole, whole) =~= Seq::<u8>::empty());
                assert(content_end(dir, start, whole) == content_end(dir, start, cut));
            } else {
                assert(p.take(start) == dir.take(start));
            }
        } else {
            assert(p.take(cut) == dir.take(cut));
            lemma_prefix_decides(p, dir, start, cut);
        }
    }
    assert(components_to(p, start, cut) == components(dir));
    lemma_cut_keeps_components(p, cut);
    law_directory_and_name(p);
}

// ---- executable -------------------------------------------------------------

/// The bytes from `from` up to `to`.
pub fn bytes_range(bytes: &Vec<u8>, from: usize, to: usize) -> (out: Vec<u8>)
    requires
        from <= to <= bytes@.len(),
    ensures
        out@ == bytes@.subrange(from as int, to as int),
{
    let mut out: Vec<u8> = Vec::new();
    for i in from..to
        invariant
            from <= to <= bytes@.len(),
            out@ == bytes@.subrange(from as int, i as int),
    {
        out.push(bytes[i]);
    }
    out
}

/// Whether two byte strings are the same.
pub fn same_bytes(a: &Vec<u8>, b: &Vec<u8>) -> (same: bool)
    ensures
        same == (a@ == b@),
{
    if a.len() != b.len() {
        return false;
    }
    for i in 0..a.len()
        invariant
            a@.len() == b@.len(),
            forall|k: int| 0 <= k < i ==> a@[k] == b@[k],
    {
        if a[i] != b[i] {
            return false;
        }
    }
    assert(a@ =~= b@);
    true
}

fn find_piece_start(p: &Vec<u8>, start: usize, end: usize) -> (at: usize)
    requires
        start <= end <= p@.len(),
    ensures
        at == piece_start(p@, start as int, end as int),
        start <= at <= end,
{
    let mut at: usize = end;
    while at > start && p[at - 1] != SEPARATOR
        invariant
            start <= at <= end <= p@.len(),
            piece_start(p@, start as int, end as int) == piece_start(p@, start as int, at as int),
        decreases at,
    {
        at = at - 1;
    }
    at
}

fn find_content_end(p: &Vec<u8>, start: usize, end: usize) -> (last: usize)
    requires
        start <= end <= p@.len(),
    ensures
        last == content_end(p@, start as int, end as int),
        start <= last <= end,
{
    let mut last: usize = end;
    while last > start
        invariant
            start <= last <= end <= p@.len(),
            content_end(p@, start as int, end as int) == content_end(p@, start as int, last as int),
        ensures
            start <= last <= end,
            last == content_end(p@, start as int, end as int),
        decreases last,
    {
        let at = find_piece_start(p, start, last);
        let trivial = at == last || (at + 1 == last && p[at] == DOT);
        proof {
            let piece = p@.subrange(at as int, last as int);
            if piece.len() == 1 {
                assert(piece =~= seq![piece[0]]);
            }
            assert(trivial == is_trivial(piece));
        }
        if !trivial {
            break;
        }
        last = if at > start {
            at - 1
        } else {
            start
        };
    }
    last
}

impl PathName {
    /// The path with the given bytes.
    pub fn from_bytes(bytes: Vec<u8>) -> (path: PathName)
        ensures
            path@ == bytes@,
    {
        PathName { bytes }
    }

    /// The path that the given text writes.
    pub fn from_text(text: &str) -> (path: PathName)
        ensures
            path@ == encode_utf8(text@),
    {
        let bytes = text.as_bytes();
        let mut out: Vec<u8> = Vec::new();
        for i in 0..bytes.len()
            invariant
                out@ == bytes@.take(i as int),
        {
            out.push(bytes[i]);
        }
        PathName { bytes: out }
    }

    /// A copy of the path.
    pub fn copy(&self) -> (path: PathName)
        ensures
            path@ == self@,
    {
        PathName { bytes: bytes_range(&self.bytes, 0, self.bytes.len()) }
    }

    /// The path as text, with a replacement for what is not UTF-8.
    pub fn to_text_lossy(&self) -> (text: String)
        ensures
            text@ == text::lossy(self@),
            valid_utf8(self@) ==> encode_utf8(text@) == self@,
    {
        proof {
            if valid_utf8(self@) {
                decode_utf8_encode_utf8(self@);
            }
        }
        text::decode_lossy(&self.bytes)
    }

    fn body_start(&self) -> (start: usize)
        ensures
            start == body_start(self@),
            start <= self@.len(),
    {
        let p = &self.bytes;
        if p.len() > 0 && p[0] == SEPARATOR {
            1
        } else if p.len() > 0 && p[0] == DOT && (p.len() == 1 || p[1] == SEPARATOR) {
            1
        } else {
            0
        }
    }

    /// The last component, if it is a name.
    pub fn file_name(&self) -> (name: Option<Vec<u8>>)
        ensures
            name is Some <==> file_name(self@) is Some,
            name matches Some(n) ==> Some(n@) == file_name(self@),
    {
        let start = self.body_start();
        let last = find_content_end(&self.bytes, start, self.bytes.len());
        if last <= start {
            return None;
        }
        let at = find_piece_start(&self.bytes, start, last);
        let name = bytes_range(&self.bytes, at, last);
        if name.len() == 2 && name[0] == DOT && name[1] == DOT {
            assert(name@ =~= seq![DOT, DOT]);
            return None;
        }
        Some(name)
    }

    /// The path without its last component, if it has one to take off.
    pub fn parent(&self) -> (dir: Option<PathName>)
        ensures
            dir is Some <==> parent(self@) is Some,
            dir matches Some(d) ==> Some(d@) == parent(self@),
    {
        let start = self.body_start();
        let last = find_content_end(&self.bytes, start, self.bytes.len());
        if last > start {
            let at = find_piece_start(&self.bytes, start, last);
            let cut: usize = if at > start {
                at - 1
            } else {
                start
            };
            let end = find_content_end(&self.bytes, start, cut);
            return Some(PathName { bytes: bytes_range(&self.bytes, 0, end) });
        }
        if start == 1 && self.bytes[0] == DOT {
            return Some(PathName { bytes: Vec::new() });
        }
        None
    }

    /// The directory that the entry counts as being in.
    pub fn directory(&self) -> (dir: PathName)
        ensures
            dir@ == directory(self@),
    {
        match self.parent() {
            Some(dir) => dir,
            None => PathName { bytes: Vec::new() },
        }
    }

    /// A path below this one.
    pub fn join(&self, name: &Vec<u8>) -> (path: PathName)
        ensures
            path@ == join(self@, name@),
    {
        let mut out: Vec<u8> = Vec::new();
        if !(name.len() > 0 && name[0] == SEPARATOR) {
            out = bytes_range(&self.bytes, 0, self.bytes.len());
            if out.len() > 0 && out[out.len() - 1] != SEPARATOR {
                out.push(SEPARATOR);
            }
        }
        let mut rest = bytes_range(name, 0, name.len());
        out.append(&mut rest);
        PathName { bytes: out }
    }

    /// The components, the root as a lone separator.
    pub fn components(&self) -> (parts: Vec<Vec<u8>>)
        ensures
            parts@.len() == components(self@).len(),
            forall|k: int|
                0 <= k < parts@.len() ==> (#[trigger] parts@[k])@ == components(self@)[k],
    {
        let start = self.body_start();
        components_upto(&self.bytes, start, self.bytes.len())
    }

    /// How many components the path has below `root`; all of them if it does
    /// not lie below it.
    pub fn depth_below(&self, root: &PathName) -> (depth: usize)
        ensures
            depth == depth_below(self@, root@),
    {
        let mine = self.components();
        let base = root.components();
        let mut inside = base.len() <= mine.len();
        let mut i: usize = 0;
        while inside && i < base.len()
            invariant
                mine@.len() == components(self@).len(),
                forall|k: int|
                    0 <= k < mine@.len() ==> (#[trigger] mine@[k])@ == components(self@)[k],
                base@.len() == components(root@).len(),
                forall|k: int|
                    0 <= k < base@.len() ==> (#[trigger] base@[k])@ == components(root@)[k],
                i <= base@.len(),
                inside ==> base@.len() <= mine@.len(),
                inside ==> forall|k: int|
                    0 <= k < i ==> components(self@)[k] == components(root@)[k],
                !inside ==> !text::starts_with(components(self@), components(root@)),
            decreases base@.len() - i + if inside {
                1int
            } else {
                0int
            },
        {
            if !same_bytes(&base[i], &mine[i]) {
                proof {
                    let prefix = components(self@).take(components(root@).len() as int);
                    if prefix == components(root@) {
                        assert(prefix[i as int] == components(root@)[i as int]);
                    }
                }
                inside = false;
            } else {
                i = i + 1;
            }
        }
        if inside {
            assert(components(self@).take(components(root@).len() as int) == components(root@));
            mine.len() - base.len()
        } else {
            mine.len()
        }
    }

    /// Whether two paths have the same components.
    pub fn same_path(&self, other: &PathName) -> (same: bool)
        ensures
            same == (components(self@) == components(other@)),
    {
        let mine = self.components();
        let theirs = other.components();
        if mine.len() != theirs.len() {
            return false;
        }
        for i in 0..mine.len()
            invariant
                mine@.len() == components(self@).len(),
                forall|k: int|
                    0 <= k < mine@.len() ==> (#[trigger] mine@[k])@ == components(self@)[k],
                theirs@.len() == components(other@).len(),
                forall|k: int|
                    0 <= k < theirs@.len() ==> (#[trigger] theirs@[k])@ == components(other@)[k],
                mine@.len() == theirs@.len(),
                forall|k: int| 0 <= k < i ==> components(self@)[k] == components(other@)[k],
        {
            if !same_bytes(&mine[i], &theirs[i]) {
                return false;
            }
        }
        assert(components(self@) =~= components(other@));
        true
    }
}

fn components_upto(p: &Vec<u8>, start: usize, end: usize) -> (parts: Vec<Vec<u8>>)
    requires
        start <= end <= p@.len(),
    ensures
        parts@.len() == components_to(p@, start as int, end as int).len(),
        forall|k: int|
            0 <= k < parts@.len() ==> (#[trigger] parts@[k])@ == components_to(
                p@,
                start as int,
                end as int,
            )[k],
    decreases end,
{
    let last = find_content_end(p, start, end);
    if last <= start {
        let mut parts: Vec<Vec<u8>> = Vec::new();
        if start > 0 {
            parts.push(bytes_range(p, 0, start));
        }
        return parts;
    }
    let at = find_piece_start(p, start, last);
    let cut: usize = if at > start {
        at - 1
    } else {
        start
    };
    proof {
        lemma_content_end(p@, start as int, end as int);
    }
    let mut parts = components_upto(p, start, cut);
    parts.push(bytes_range(p, at, last));
    parts
}

// ---- laws on components --------------------------------------------------------------

/// Of an empty path there are no components, and the root and the present directory
/// are one each. None of the three has a name, and the root and the empty path are in
/// no directory.
pub proof fn law_bare_paths_have_no_name()
    ensures
        components(Seq::empty()) == Seq::<Seq<u8>>::empty(),
        components(seq![SEPARATOR]) == seq![seq![SEPARATOR]],
        components(seq![DOT]) == seq![seq![DOT]],
        file_name(Seq::empty()) is None,
        file_name(seq![SEPARATOR]) is None,
        file_name(seq![DOT]) is None,
        parent(Seq::empty()) is None,
        parent(seq![SEPARATOR]) is None,
{
    assert(seq![SEPARATOR].take(1) =~= seq![SEPARATOR]);
    assert(seq![DOT].take(1) =~= seq![DOT]);
}

/// A separator at the end makes no difference to the components of a path.
pub proof fn law_final_separator_counts_for_nothing(p: Seq<u8>)
    requires
        p.len() > 0,
    ensures
        components(p.push(SEPARATOR)) == components(p),
        file_name(p.push(SEPARATOR)) == file_name(p),
{
    let q = p.push(SEPARATOR);
    let n = p.len() as int;
    let start = body_start(p);
    assert(body_start(q) == start);
    assert(q.take(n) =~= p);
    assert(p.take(n) =~= p);
    lemma_prefix_decides(p, q, start, n);
    assert(q[n] == SEPARATOR);
    assert(piece_start(q, start, n + 1) == n + 1);
    assert(q.subrange(n + 1, n + 1).len() == 0);
    assert(content_end(q, start, n + 1) == content_end(q, start, n));
    let last = content_end(p, start, n);
    lemma_content_end(p, start, n);
    if last > start {
        lemma_piece_start(p, start, last);
        let at = piece_start(p, start, last);
        let cut = before_piece(start, at);
        assert(q.take(last) =~= p.take(last));
        lemma_prefix_decides(p, q, start, last);
        assert(q.take(cut) =~= p.take(cut));
        lemma_prefix_decides(p, q, start, cut);
        assert(q.subrange(at, last) =~= p.subrange(at, last));
    } else {
        assert(q.take(start) =~= p.take(start));
    }
}

/// Behind the first, every component of a path is a name or `..`: it is not empty, it
/// is no `.`, and it holds no separator.
pub proof fn law_components_are_names(p: Seq<u8>, i: int)
    requires
        0 < i < components(p).len(),
    ensures
        components(p)[i].len() > 0,
        components(p)[i] != seq![DOT],
        !components(p)[i].contains(SEPARATOR),
{
    lemma_component(p, body_start(p), p.len() as int, i);
}

proof fn lemma_component(p: Seq<u8>, start: int, end: int, i: int)
    requires
        0 <= start <= 1,
        start <= end <= p.len(),
        0 < i < components_to(p, start, end).len(),
    ensures
        components_to(p, start, end)[i].len() > 0,
        components_to(p, start, end)[i] != seq![DOT],
        !components_to(p, start, end)[i].contains(SEPARATOR),
    decreases end,
{
    let last = content_end(p, start, end);
    lemma_content_end(p, start, end);
    if !(end <= start || last <= start) {
        let at = piece_start(p, start, last);
        lemma_piece_start(p, start, last);
        let cut = before_piece(start, at);
        let head = components_to(p, start, cut);
        if i < head.len() {
            lemma_component(p, start, cut, i);
        } else {
            let piece = p.subrange(at, last);
            assert(!is_trivial(piece));
            if piece.contains(SEPARATOR) {
                let k = choose|k: int| 0 <= k < piece.len() && piece[k] == SEPARATOR;
                assert(p[at + k] == SEPARATOR);
            }
        }
    }
}

/// The name of a path is its last component, if that is a name.
pub proof fn law_the_last_component_is_the_name(p: Seq<u8>)
    requires
        components(p).len() > 0,
        is_plain_name(components(p).last()),
    ensures
        file_name(p) == Some(components(p).last()),
{
    let start = body_start(p);
    let last = content_end(p, start, p.len() as int);
    if last <= start {
        assert(components(p) =~= seq![p.take(start)]);
        assert(p.take(1)[0] == p[0]);
        if p[0] == SEPARATOR {
            assert(p.take(1).contains(p.take(1)[0]));
        } else {
            assert(p.take(1) =~= seq![DOT]);
        }
    }
}

/// A path is at depth zero below itself, what is in a directory is one deeper than the
/// directory, and below a root that it does not lie under a path is as deep as it has
/// components.
pub proof fn law_depth_counts_the_way_down(dir: Seq<u8>, name: Seq<u8>, root: Seq<u8>)
    requires
        is_plain_name(name),
    ensures
        depth_below(dir, dir) == 0,
        text::starts_with(components(dir), components(root)) ==> depth_below(
            join(dir, name),
            root,
        ) == depth_below(dir, root) + 1,
        !text::starts_with(components(dir), components(root)) ==> depth_below(dir, root)
            == components(dir).len(),
{
    law_join_stays_in_directory(dir, name);
    let parts = components(dir);
    let more = parts.push(name);
    assert(parts.take(parts.len() as int) =~= parts);
    if text::starts_with(parts, components(root)) {
        assert(more.take(components(root).len() as int) =~= parts.take(
            components(root).len() as int,
        ));
    }
}

/// A path that is joined is the directory and then the name, with a separator between
/// the two if there is none; a path from the root stands by itself.
pub proof fn law_joining_puts_the_name_behind(dir: Seq<u8>, name: Seq<u8>)
    ensures
        name.len() > 0 && name[0] == SEPARATOR ==> join(dir, name) == name,
        !(name.len() > 0 && name[0] == SEPARATOR) ==> {
            &&& dir.len() == 0 || dir.last() == SEPARATOR ==> join(dir, name) == dir + name
            &&& dir.len() > 0 && dir.last() != SEPARATOR ==> join(dir, name) == dir + seq![
                SEPARATOR,
            ] + name
        },
{
    assert(dir.push(SEPARATOR) + name =~= dir + seq![SEPARATOR] + name);
}

/// The directory of a path is what the path begins with, byte for byte.
pub proof fn law_paths_begin_with_their_directories(p: Seq<u8>)
    requires
        file_name(p) is Some,
    ensures
        text::starts_with(p, directory(p)),
        directory(p).len() < p.len(),
{
    let start = body_start(p);
    let last = content_end(p, start, p.len() as int);
    lemma_content_end(p, start, p.len() as int);
    lemma_piece_start(p, start, last);
    let cut = before_piece(start, piece_start(p, start, last));
    lemma_content_end(p, start, cut);
    let end = content_end(p, start, cut);
    assert(p.take(p.take(end).len() as int) =~= p.take(end));
}

/// A `.` behind a path makes no difference to its components.
pub proof fn law_final_dot_counts_for_nothing(p: Seq<u8>)
    requires
        p.len() > 0,
    ensures
        components(p.push(SEPARATOR).push(DOT)) == components(p),
        file_name(p.push(SEPARATOR).push(DOT)) == file_name(p),
{
    let q = p.push(SEPARATOR).push(DOT);
    let n = p.len() as int;
    let start = body_start(p);
    assert(body_start(q) == start);
    assert(q.take(n) =~= p);
    assert(p.take(n) =~= p);
    lemma_prefix_decides(p, q, start, n);
    assert(q[n] == SEPARATOR);
    assert(q[n + 1] == DOT);
    assert(piece_start(q, start, n + 1) == n + 1);
    assert(piece_start(q, start, n + 2) == n + 1);
    assert(q.subrange(n + 1, n + 2) =~= seq![DOT]);
    assert(content_end(q, start, n + 2) == content_end(q, start, n));
    let last = content_end(p, start, n);
    lemma_content_end(p, start, n);
    if last > start {
        lemma_piece_start(p, start, last);
        let at = piece_start(p, start, last);
        let cut = before_piece(start, at);
        assert(q.take(last) =~= p.take(last));
        lemma_prefix_decides(p, q, start, last);
        assert(q.take(cut) =~= p.take(cut));
        lemma_prefix_decides(p, q, start, cut);
        assert(q.subrange(at, last) =~= p.subrange(at, last));
    } else {
        assert(q.take(start) =~= p.take(start));
    }
}

/// A separator is a slash, and the present directory a full stop.
pub proof fn law_slashes_separate()
    ensures
        SEPARATOR == '/' as u8,
        DOT == '.' as u8,
{
}

/// A `..` is a component like any other, but no name: nothing is cut off for it.
pub proof fn law_parent_references_are_kept(p: Seq<u8>)
    requires
        p.len() > 0,
    ensures
        components(p.push(SEPARATOR).push(DOT).push(DOT)) == components(p).push(seq![DOT, DOT]),
        file_name(p.push(SEPARATOR).push(DOT).push(DOT)) is None,
{
    let q = p.push(SEPARATOR).push(DOT).push(DOT);
    let n = p.len() as int;
    let start = body_start(p);
    assert(body_start(q) == start);
    assert(q.take(n) =~= p);
    assert(p.take(n) =~= p);
    lemma_prefix_decides(p, q, start, n);
    assert(q[n] == SEPARATOR && q[n + 1] == DOT && q[n + 2] == DOT);
    assert(piece_start(q, start, n + 1) == n + 1);
    assert(piece_start(q, start, n + 2) == n + 1);
    assert(piece_start(q, start, n + 3) == n + 1);
    assert(q.subrange(n + 1, n + 3) =~= seq![DOT, DOT]);
    assert(seq![DOT, DOT].len() == 2 && seq![DOT].len() == 1);
    assert(content_end(q, start, n + 3) == n + 3);
}

} // verus!
