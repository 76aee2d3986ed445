//! File system paths, as the byte strings that they are on Unix.

use crate::text;
use vstd::prelude::*;

verus! {

/// The separator of path components.
pub const SEPARATOR: u8 = 0x2f;

/// A file system path. Any bytes can occur in it, so it need not be text.
#[derive(Clone, Debug)]
pub struct UnixPath {
    pub bytes: Vec<u8>,
}

impl View for UnixPath {
    type V = Seq<u8>;

    open spec fn view(&self) -> Seq<u8> {
        self.bytes@
    }
}

/// Whether a path begins at the root.
pub open spec fn is_absolute_path(path: Seq<u8>) -> bool {
    path.len() > 0 && path[0] == SEPARATOR
}

/// `base` extended by `rest`; an absolute `rest` replaces it.
pub open spec fn joined_path(base: Seq<u8>, rest: Seq<u8>) -> Seq<u8> {
    if is_absolute_path(rest) {
        rest
    } else if base.len() > 0 && base.last() != SEPARATOR {
        base.push(SEPARATOR) + rest
    } else {
        base + rest
    }
}

/// The piece of a path that ends before position `end`: what follows the last
/// separator.
pub open spec fn piece_start(path: Seq<u8>, end: int) -> int
    decreases end,
{
    if end <= 0 || path[end - 1] == SEPARATOR {
        end
    } else {
        piece_start(path, end - 1)
    }
}

/// Whether the piece from `from` to before `to` counts as a component: it is not
/// empty, and it is not a dot, unless the path begins with it.
pub open spec fn counts(path: Seq<u8>, from: int, to: int) -> bool {
    &&& from < to
    &&& !(from > 0 && to == from + 1 && path[from] == 0x2e)
}

/// How many components of a relative path begin before position `end`, which is
/// the end or a separator.
pub open spec fn component_count(path: Seq<u8>, end: int) -> nat
    decreases end,
{
    let from = piece_start(path, end);
    let here: nat = if counts(path, from, end) {
        1
    } else {
        0
    };
    if from <= 0 || from > end {
        here
    } else {
        component_count(path, from - 1) + here
    }
}

/// Where the last component of what lies before `end` ends: separators behind it,
/// and pieces that do not count, are left out.
pub open spec fn body_end(path: Seq<u8>, end: int) -> int
    decreases end,
{
    let from = piece_start(path, end);
    if end <= 0 || counts(path, from, end) {
        end
    } else if from <= 0 || from > end {
        0
    } else {
        body_end(path, from - 1)
    }
}

/// The path without its last component. The root and the empty path have none.
pub open spec fn parent_path(path: Seq<u8>) -> Option<Seq<u8>> {
    let end = body_end(path, path.len() as int);
    let from = piece_start(path, end);
    if end <= 0 {
        None
    } else if from <= 0 {
        Some(Seq::empty())
    } else if body_end(path, from - 1) <= 0 {
        // Only the root is left.
        Some(path.take(1))
    } else {
        Some(path.take(body_end(path, from - 1)))
    }
}

proof fn lemma_piece_start(path: Seq<u8>, end: int)
    requires
        0 <= end,
    ensures
        0 <= piece_start(path, end) <= end,
    decreases end,
{
    if end > 0 && path[end - 1] != SEPARATOR {
        lemma_piece_start(path, end - 1);
    }
}

proof fn lemma_body_end(path: Seq<u8>, end: int)
    requires
        0 <= end,
    ensures
        0 <= body_end(path, end) <= end,
    decreases end,
{
    let from = piece_start(path, end);
    lemma_piece_start(path, end);
    if end > 0 && !counts(path, from, end) && from > 0 {
        lemma_body_end(path, from - 1);
    }
}

/// Components depend on what stands before their end alone.
proof fn lemma_body_end_of_prefix(path: Seq<u8>, more: Seq<u8>, end: int)
    requires
        0 <= end <= path.len(),
    ensures
        piece_start(path + more, end) == piece_start(path, end),
        body_end(path + more, end) == body_end(path, end),
    decreases end,
{
    lemma_piece_start(path, end);
    lemma_piece_start_of_prefix(path, more, end);
    let from = piece_start(path, end);
    if end > 0 && from > 0 {
        lemma_body_end_of_prefix(path, more, from - 1);
    }
}

proof fn lemma_piece_start_of_prefix(path: Seq<u8>, more: Seq<u8>, end: int)
    requires
        0 <= end <= path.len(),
    ensures
        piece_start(path + more, end) == piece_start(path, end),
    decreases end,
{
    if end > 0 {
        lemma_piece_start_of_prefix(path, more, end - 1);
    }
}

/// The last piece begins where `name` does, if a separator stands before it and
/// none in it.
proof fn lemma_last_piece(front: Seq<u8>, name: Seq<u8>, k: int)
    requires
        front.len() > 0 ==> front.last() == SEPARATOR,
        !name.contains(SEPARATOR),
        0 <= k <= name.len(),
    ensures
        piece_start(front + name, front.len() + k) == front.len(),
    decreases k,
{
    if k > 0 {
        lemma_last_piece(front, name, k - 1);
        assert(name.contains(name[k - 1]));
    }
}

/// Whether a path ends with a component.
pub open spec fn ends_with_component(path: Seq<u8>) -> bool {
    path.len() > 0 && body_end(path, path.len() as int) == path.len()
}

/// A path that a name of two bytes or more is joined to ends with a component.
pub proof fn joining_ends_with_component(base: Seq<u8>, name: Seq<u8>)
    requires
        name.len() >= 2,
        !name.contains(SEPARATOR),
    ensures
        ends_with_component(joined_path(base, name)),
{
    let path = joined_path(base, name);
    assert(name.contains(name[0]));
    let front = path.take(path.len() - name.len());
    assert(path =~= front + name);
    lemma_last_piece(front, name, name.len() as int);
}

/// The parent of a path that was put together is what it was put together from.
pub proof fn parent_of_joined(base: Seq<u8>, name: Seq<u8>)
    requires
        ends_with_component(base),
        name.len() >= 2,
        !name.contains(SEPARATOR),
    ensures
        parent_path(joined_path(base, name)) == Some(base),
{
    let n = base.len() as int;
    let path = joined_path(base, name);
    if base.last() == SEPARATOR {
        lemma_body_end(base, n - 1);
    }
    assert(name.contains(name[0]));
    let front = base.push(SEPARATOR);
    assert(path == front + name);
    lemma_last_piece(front, name, name.len() as int);
    assert(path =~= base + (seq![SEPARATOR] + name));
    lemma_body_end_of_prefix(base, seq![SEPARATOR] + name, n);
    assert(path.take(n) =~= base);
}

/// Joining a relative path keeps the base at the front.
pub proof fn joining_stays_below(base: Seq<u8>, rest: Seq<u8>)
    requires
        !is_absolute_path(rest),
    ensures
        joined_path(base, rest).len() >= base.len() + rest.len(),
        joined_path(base, rest).take(base.len() as int) == base,
        is_absolute_path(base) ==> is_absolute_path(joined_path(base, rest)),
{
    assert(joined_path(base, rest).take(base.len() as int) =~= base);
}

/// Different names lead to different paths below one base.
pub proof fn joining_tells_names_apart(base: Seq<u8>, a: Seq<u8>, b: Seq<u8>)
    requires
        !is_absolute_path(a),
        !is_absolute_path(b),
        joined_path(base, a) == joined_path(base, b),
    ensures
        a == b,
{
    let j = joined_path(base, a);
    assert(a =~= j.skip(j.len() - a.len()));
    assert(b =~= j.skip(j.len() - b.len()));
}

impl UnixPath {
    /// The path that text stands for.
    pub fn from_text(s: &str) -> (r: UnixPath)
        ensures
            r@ == vstd::utf8::encode_utf8(s@),
    {
        UnixPath { bytes: text::bytes_of(s) }
    }

    /// A copy.
    pub fn copied(&self) -> (r: UnixPath)
        ensures
            r@ == self@,
    {
        UnixPath { bytes: vstd::slice::slice_to_vec(self.bytes.as_slice()) }
    }

    /// Whether the path begins at the root.
    pub fn is_absolute(&self) -> (r: bool)
        ensures
            r == is_absolute_path(self@),
    {
        self.bytes.len() > 0 && self.bytes[0] == SEPARATOR
    }

    /// This path extended by `rest`; an absolute `rest` replaces it.
    pub fn join(&self, rest: &[u8]) -> (r: UnixPath)
        ensures
            r@ == joined_path(self@, rest@),
    {
        let mut bytes: Vec<u8> = Vec::new();
        if !(rest.len() > 0 && rest[0] == SEPARATOR) {
            bytes.extend_from_slice(self.bytes.as_slice());
            if self.bytes.len() > 0 && self.bytes[self.bytes.len() - 1] != SEPARATOR {
                bytes.push(SEPARATOR);
            }
        }
        bytes.extend_from_slice(rest);
        assert(bytes@ =~= joined_path(self@, rest@));
        UnixPath { bytes }
    }

    /// This path extended by the path that text stands for.
    pub fn join_text(&self, rest: &str) -> (r: UnixPath)
        ensures
            r@ == joined_path(self@, vstd::utf8::encode_utf8(rest@)),
    {
        self.join(rest.as_bytes())
    }

    /// How many components a relative path has.
    pub fn components(&self) -> (r: usize)
        ensures
            r == component_count(self@, self@.len() as int),
    {
        let n: usize = self.bytes.len();
        let mut total: usize = 0;
        let mut end: usize = n;
        loop
            invariant
                n == self@.len(),
                end <= n,
                total + component_count(self@, end as int) == component_count(self@, n as int),
                total <= n - end,
            decreases end,
        {
            let from: usize = self.piece_from(end);
            if from < end && !(from > 0 && end - from == 1 && self.bytes[from] == 0x2e) {
                total += 1;
            }
            if from == 0 {
                return total;
            }
            end = from - 1;
        }
    }

    /// Where the piece that ends before `end` begins.
    fn piece_from(&self, end: usize) -> (r: usize)
        requires
            end <= self@.len(),
        ensures
            r == piece_start(self@, end as int),
            r <= end,
    {
        let mut from: usize = end;
        while from > 0 && self.bytes[from - 1] != SEPARATOR
            invariant
                from <= end <= self@.len(),
                piece_start(self@, from as int) == piece_start(self@, end as int),
            decreases from,
        {
            from -= 1;
        }
        from
    }

    /// Where the last component of what lies before `end` ends.
    fn trimmed_to(&self, end: usize) -> (r: usize)
        requires
            end <= self@.len(),
        ensures
            r == body_end(self@, end as int),
            r <= end,
    {
        let mut at: usize = end;
        loop
            invariant
                at <= end <= self@.len(),
                body_end(self@, at as int) == body_end(self@, end as int),
            decreases at,
        {
            let from: usize = self.piece_from(at);
            if at == 0 || (from < at && !(from > 0 && at - from == 1 && self.bytes[from] == 0x2e)) {
                return at;
            }
            if from == 0 {
                return 0;
            }
            at = from - 1;
        }
    }

    /// The path without its last component. The root and the empty path have none.
    pub fn parent(&self) -> (r: Option<UnixPath>)
        ensures
            match r {
                Some(path) => parent_path(self@) == Some(path@),
                None => parent_path(self@) is None,
            },
    {
        let end: usize = self.trimmed_to(self.bytes.len());
        if end == 0 {
            return None;
        }
        let from: usize = self.piece_from(end);
        let kept: usize = if from == 0 {
            0
        } else {
            let before: usize = self.trimmed_to(from - 1);
            if before == 0 {
                1
            } else {
                before
            }
        };
        let bytes: Vec<u8> = vstd::slice::slice_to_vec(
            vstd::slice::slice_subrange(self.bytes.as_slice(), 0, kept),
        );
        assert(bytes@ =~= self@.take(kept as int));
        Some(UnixPath { bytes })
    }

    /// The path as text, as it is shown to people: what is not text is replaced.
    pub fn display(&self) -> (r: String)
        ensures
            r@ == text::shown_text(self@),
    {
        text::from_utf8_lossy(self.bytes.as_slice())
    }
}

/// A path that is not text, as it is shown to people.
#[derive(Debug)]
pub struct PathNotText {
    pub shown: String,
}

impl PathNotText {
    /// The message.
    pub fn message(&self) -> (r: String)
        ensures
            r@ == "path is not valid UTF-8: "@ + self.shown@,
    {
        text::concat("path is not valid UTF-8: ", self.shown.as_str())
    }
}

/// A path as text.
pub fn path_str(path: &UnixPath) -> (r: Result<&str, PathNotText>)
    ensures
        r is Ok <==> vstd::utf8::valid_utf8(path@),
        r matches Ok(s) ==> s@ == vstd::utf8::decode_utf8(path@),
        r matches Err(e) ==> e.shown@ == text::lossy_text(path@),
{
    match text::from_utf8(path.bytes.as_slice()) {
        Ok(s) => Ok(s),
        Err(_) => Err(PathNotText { shown: path.display() }),
    }
}

/// Joining puts a slash between the two, where there is none and something is in
/// front; a path that begins with a slash stands for itself.
pub proof fn joining_adds_one_slash(base: Seq<u8>, rest: Seq<u8>)
    ensures
        ({
            let j = joined_path(base, rest);
            &&& rest.len() > 0 && rest[0] == 0x2f ==> j == rest
            &&& !(rest.len() > 0 && rest[0] == 0x2f) ==> {
                &&& base.len() == 0 ==> j == rest
                &&& base.len() > 0 && base[base.len() - 1] == 0x2f ==> j == base + rest
                &&& base.len() > 0 && base[base.len() - 1] != 0x2f ==> j == base + seq![0x2fu8]
                    + rest
            }
        }),
{
    assert(base.len() == 0 ==> base + rest =~= rest);
    assert(base.push(SEPARATOR) + rest =~= base + seq![0x2fu8] + rest);
}

/// A name without a slash has no more than one component, and two names with a slash
/// between them, the second of which is not a dot, have two.
pub proof fn slashes_part_components(a: Seq<u8>, b: Seq<u8>)
    requires
        !a.contains(0x2f),
        !b.contains(0x2f),
    ensures
        component_count(a, a.len() as int) == (if a.len() == 0 {
            0nat
        } else {
            1
        }),
        a.len() > 0 && b.len() > 0 && b != seq![0x2eu8] ==> component_count(
            a + seq![0x2fu8] + b,
            (a.len() + 1 + b.len()) as int,
        ) == 2,
{
    let nothing = Seq::<u8>::empty();
    assert(nothing + a =~= a);
    lemma_last_piece(nothing, a, a.len() as int);
    if a.len() > 0 && b.len() > 0 && b != seq![0x2eu8] {
        let front = a.push(SEPARATOR);
        let path = a + seq![0x2fu8] + b;
        assert(path =~= front + b);
        lemma_last_piece(front, b, b.len() as int);
        let more = seq![0x2fu8] + b;
        assert(path =~= a + more);
        lemma_body_end_of_prefix(a, more, a.len() as int);
        if b.len() == 1 {
            assert(b[0] != 0x2e) by {
                if b[0] == 0x2e {
                    assert(b =~= seq![0x2eu8]);
                }
            }
            assert(path[front.len() as int] == b[0]);
        }
        assert(counts(path, front.len() as int, path.len() as int));
        assert(piece_start(path, a.len() as int) == 0);
        assert(counts(path, 0, a.len() as int));
        assert(component_count(path, a.len() as int) == 1);
        assert(component_count(path, path.len() as int) == component_count(path, front.len() - 1)
            + 1);
    }
}

/// The parent of a bare name is the current directory, which is written as nothing.
pub proof fn bare_names_have_no_parent(name: Seq<u8>)
    requires
        name.len() >= 2,
        !name.contains(0x2f),
    ensures
        parent_path(name) == Some(Seq::<u8>::empty()),
{
    let nothing = Seq::<u8>::empty();
    assert(nothing + name =~= name);
    lemma_last_piece(nothing, name, name.len() as int);
}

} // verus!
