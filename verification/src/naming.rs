//! The names of the directories that stand for sockets and domains.
//!
//! The directory of a socket has a path that ends with `intel-rapl:<N>`, the
//! directory of one of its domains a path that ends with `intel-rapl:<S>:<N>`.
//! `<N>` and `<S>` are runs of ASCII digits that write a number from 0 to 255
//! in base 10, `<N>` the identifier of the entity and `<S>` that of the socket
//! which the domain belongs to. A path of any other shape names no entity.

use crate::text::{
    all_digits, chars_of, decimal, digit, digits_value, is_digit, lemma_trailing_digits,
    lemma_trailing_digits_is, trailing_digits,
};
use vstd::prelude::*;

verus! {

/// What comes before the identifier of a socket.
pub open spec fn marker() -> Seq<char> {
    "intel-rapl:"@
}

/// The digits that `path` ends with.
pub open spec fn numeric_suffix(path: Seq<char>) -> Seq<char> {
    path.skip(path.len() - trailing_digits(path))
}

/// `path` without the digits that it ends with.
pub open spec fn stem(path: Seq<char>) -> Seq<char> {
    path.take(path.len() - trailing_digits(path))
}

/// The identifier that a run of digits writes: a number from 0 to 255.
pub open spec fn identifier(digits: Seq<char>) -> Option<u8> {
    if digits.len() > 0 && all_digits(digits) && decimal(digits) <= u8::MAX {
        Some(decimal(digits) as u8)
    } else {
        None
    }
}

/// The identifier of the socket whose directory is `path`, where it names one.
pub open spec fn socket_id(path: Seq<char>) -> Option<u8> {
    if marker().is_suffix_of(stem(path)) {
        identifier(numeric_suffix(path))
    } else {
        None
    }
}

/// The identifier of the domain of socket `socket` whose directory is `path`,
/// where it names one.
pub open spec fn domain_id(path: Seq<char>, socket: u8) -> Option<u8> {
    let head = stem(path);
    if head.len() > 0 && head.last() == ':' && socket_id(head.drop_last()) == Some(socket) {
        identifier(numeric_suffix(path))
    } else {
        None
    }
}

/// The marker has eleven characters, and the last of them is a colon.
pub proof fn lemma_marker()
    ensures
        marker().len() == 11,
        marker() == seq!['i', 'n', 't', 'e', 'l', '-', 'r', 'a', 'p', 'l', ':'],
        !is_digit(marker().last()),
{
    reveal_strlit("intel-rapl:");
    assert(marker() =~= seq!['i', 'n', 't', 'e', 'l', '-', 'r', 'a', 'p', 'l', ':']);
}

/// A path is cut into stem and numeric suffix where the digits at its end begin.
pub proof fn lemma_cut(head: Seq<char>, digits: Seq<char>)
    requires
        all_digits(digits),
        head.len() == 0 || !is_digit(head.last()),
    ensures
        stem(head + digits) == head,
        numeric_suffix(head + digits) == digits,
{
    let path = head + digits;
    assert forall|j: int| path.len() - digits.len() <= j < path.len() implies is_digit(
        #[trigger] path[j],
    ) by {
        assert(path[j] == digits[j - head.len()]);
    }
    if head.len() > 0 {
        assert(path[path.len() - digits.len() - 1] == head.last());
    }
    lemma_trailing_digits_is(path, digits.len());
    assert(path.take(head.len() as int) == head);
    assert(path.skip(head.len() as int) == digits);
}

/// Every path is its stem followed by its numeric suffix, which holds digits
/// only, and the stem does not end with a digit.
pub proof fn lemma_stem_and_suffix(path: Seq<char>)
    ensures
        path == stem(path) + numeric_suffix(path),
        all_digits(numeric_suffix(path)),
        stem(path).len() == 0 || !is_digit(stem(path).last()),
{
    lemma_trailing_digits(path);
    assert(path == stem(path) + numeric_suffix(path));
}

/// A path names socket `id` exactly when it is some text, the marker, and one
/// digit or more that write `id`.
pub proof fn lemma_socket_id(path: Seq<char>, id: u8)
    ensures
        socket_id(path) == Some(id) <==> exists|before: Seq<char>, digits: Seq<char>|
            {
                &&& path == before + marker() + digits
                &&& digits.len() > 0
                &&& all_digits(digits)
                &&& decimal(digits) == id
            },
{
    lemma_marker();
    lemma_stem_and_suffix(path);
    if socket_id(path) == Some(id) {
        let head = stem(path);
        let digits = numeric_suffix(path);
        let before = head.take(head.len() - marker().len());
        assert(head == before + marker());
        assert(path == before + marker() + digits);
    }
    if exists|before: Seq<char>, digits: Seq<char>|
        {
            &&& path == before + marker() + digits
            &&& digits.len() > 0
            &&& all_digits(digits)
            &&& decimal(digits) == id
        } {
        let (before, digits) = choose|before: Seq<char>, digits: Seq<char>|
            {
                &&& path == before + marker() + digits
                &&& digits.len() > 0
                &&& all_digits(digits)
                &&& decimal(digits) == id
            };
        let head = before + marker();
        assert(head.last() == marker().last());
        lemma_cut(head, digits);
        assert(head.subrange(head.len() - marker().len(), head.len() as int) == marker());
    }
}

/// A path names domain `id` of socket `socket` exactly when it is a path that
/// names the socket, a colon, and one digit or more that write `id`.
pub proof fn lemma_domain_id(path: Seq<char>, socket: u8, id: u8)
    ensures
        domain_id(path, socket) == Some(id) <==> exists|parent: Seq<char>, digits: Seq<char>|
            {
                &&& path == parent + seq![':'] + digits
                &&& socket_id(parent) == Some(socket)
                &&& digits.len() > 0
                &&& all_digits(digits)
                &&& decimal(digits) == id
            },
{
    lemma_stem_and_suffix(path);
    if domain_id(path, socket) == Some(id) {
        let head = stem(path);
        let digits = numeric_suffix(path);
        let parent = head.drop_last();
        assert(head == parent + seq![':']);
        assert(path == parent + seq![':'] + digits);
    }
    if exists|parent: Seq<char>, digits: Seq<char>|
        {
            &&& path == parent + seq![':'] + digits
            &&& socket_id(parent) == Some(socket)
            &&& digits.len() > 0
            &&& all_digits(digits)
            &&& decimal(digits) == id
        } {
        let (parent, digits) = choose|parent: Seq<char>, digits: Seq<char>|
            {
                &&& path == parent + seq![':'] + digits
                &&& socket_id(parent) == Some(socket)
                &&& digits.len() > 0
                &&& all_digits(digits)
                &&& decimal(digits) == id
            };
        let head = parent + seq![':'];
        assert(head.last() == ':');
        lemma_cut(head, digits);
        assert(head.drop_last() == parent);
    }
}

/// `name` inside the directory `root`.
pub open spec fn joined(root: Seq<char>, name: Seq<char>) -> Seq<char> {
    root + seq!['/'] + name
}

/// The path of `name` inside the directory `root`.
pub fn join(root: &str, name: &str) -> (path: String)
    ensures
        path@ == joined(root@, name@),
{
    proof {
        reveal_strlit("/");
        assert("/"@ =~= seq!['/']);
    }
    String::from_str(root).concat("/").concat(name)
}

/// Where the digits at the end of `chars[..end]` begin.
fn digits_start(chars: &Vec<char>, end: usize) -> (start: usize)
    requires
        end <= chars.len(),
    ensures
        start <= end,
        end - start == trailing_digits(chars@.take(end as int)),
{
    let mut start: usize = end;
    while start > 0 && digit(chars[start - 1]).is_some()
        invariant
            start <= end <= chars.len(),
            forall|j: int| start <= j < end ==> is_digit(#[trigger] chars@[j]),
        decreases start,
    {
        start -= 1;
    }
    proof {
        lemma_trailing_digits_is(chars@.take(end as int), (end - start) as nat);
    }
    start
}

/// Whether `chars[..end]` ends with the marker.
fn ends_with_marker(chars: &Vec<char>, end: usize) -> (found: bool)
    requires
        end <= chars.len(),
    ensures
        found == marker().is_suffix_of(chars@.take(end as int)),
{
    proof {
        lemma_marker();
    }
    let word = "intel-rapl:";
    if end < 11 {
        return false;
    }
    let from: usize = end - 11;
    let mut i: usize = 0;
    while i < 11
        invariant
            i <= 11,
            from + 11 == end <= chars.len(),
            word@ == marker(),
            marker().len() == 11,
            forall|j: int| 0 <= j < i ==> chars@[from + j] == #[trigger] marker()[j],
        decreases 11 - i,
    {
        if chars[from + i] != word.get_char(i) {
            proof {
                let tail = chars@.take(end as int).subrange(end - 11, end as int);
                assert(tail[i as int] != marker()[i as int]);
            }
            return false;
        }
        i += 1;
    }
    proof {
        let tail = chars@.take(end as int).subrange(end - 11, end as int);
        assert(tail =~= marker());
    }
    true
}

/// The identifier of the socket that `chars[..end]` names.
fn socket_id_in(chars: &Vec<char>, end: usize) -> (id: Option<u8>)
    requires
        end <= chars.len(),
    ensures
        id == socket_id(chars@.take(end as int)),
{
    let start = digits_start(chars, end);
    let ghost path = chars@.take(end as int);
    proof {
        assert(path.take(start as int) == chars@.take(start as int));
        assert(path.skip(start as int) == chars@.subrange(start as int, end as int));
    }
    if start == end || !ends_with_marker(chars, start) {
        return None;
    }
    match digits_value(chars, start, end, 255) {
        Some(v) => Some(v as u8),
        None => None,
    }
}

/// The identifier of the socket whose directory is `path`, where it names one.
pub fn socket_id_of(path: &str) -> (id: Option<u8>)
    ensures
        id == socket_id(path@),
{
    let chars = chars_of(path);
    proof {
        assert(chars@.take(chars.len() as int) == path@);
    }
    socket_id_in(&chars, chars.len())
}

/// The identifier of the domain of socket `socket` whose directory is `path`,
/// where it names one.
pub fn domain_id_of(path: &str, socket: u8) -> (id: Option<u8>)
    ensures
        id == domain_id(path@, socket),
{
    let chars = chars_of(path);
    let end: usize = chars.len();
    let start = digits_start(&chars, end);
    proof {
        assert(chars@.take(end as int) == path@);
        assert(path@.skip(start as int) == chars@.subrange(start as int, end as int));
        if start > 0 {
            assert(path@.take(start as int).drop_last() == chars@.take(start - 1));
        }
    }
    if start == end || start == 0 || chars[start - 1] != ':' {
        return None;
    }
    match socket_id_in(&chars, start - 1) {
        Some(s) => {
            if s != socket {
                return None;
            }
        },
        None => {
            return None;
        },
    }
    match digits_value(&chars, start, end, 255) {
        Some(v) => Some(v as u8),
        None => None,
    }
}

} // verus!
