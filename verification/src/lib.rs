//! An RPC transport over a queue/pub-sub message broker.
//!
//! A caller addresses a versioned object hosted by a module, invokes a
//! method with binary-encoded arguments, and receives a correlated
//! response routed through shared broker queues.  The crate holds the
//! envelope types, their binary codec, and the pure part of the client
//! protocol; the broker connection itself lives outside.

use vstd::prelude::*;

pub mod client;
pub mod codec;
pub mod error;

pub use error::FormatError;
pub use error::ZBusError;

verus! {

/// Addresses a versioned object instance: canonical string form is
/// `name` when the version is empty, `name@version` otherwise.
#[derive(Debug, PartialEq, Eq, Clone)]
pub struct ObjectID {
    pub name: String,
    pub version: String,
}

/// The mathematical content of an [`ObjectID`].
pub struct ObjectIDView {
    pub name: Seq<char>,
    pub version: Seq<char>,
}

impl View for ObjectID {
    type V = ObjectIDView;

    open spec fn view(&self) -> ObjectIDView {
        ObjectIDView { name: self.name@, version: self.version@ }
    }
}

/// The canonical string form of an object id, as a character sequence.
pub open spec fn object_id_chars(o: ObjectIDView) -> Seq<char> {
    if o.version.len() == 0 {
        o.name
    } else {
        o.name + seq!['@'] + o.version
    }
}

/// Whether the string holds more than one separator.
pub open spec fn has_two_seps(s: Seq<char>) -> bool {
    exists|i: int, j: int| 0 <= i < j < s.len() && s[i] == '@' && s[j] == '@'
}

/// Whether the string holds a separator at all.
pub open spec fn has_sep(s: Seq<char>) -> bool {
    exists|i: int| 0 <= i < s.len() && s[i] == '@'
}

/// The position of the separator, on a string that holds exactly one.
pub open spec fn sep_index(s: Seq<char>) -> int {
    choose|i: int| 0 <= i < s.len() && s[i] == '@'
}

/// What a combined object-id string denotes: nothing when more than
/// one separator is present; otherwise the part before the separator
/// as the name and the part after it as the version, the version
/// empty when there is no separator.  An empty name is accepted: the
/// string `@1.0` denotes the object `{name: "", version: "1.0"}`.
pub open spec fn object_id_of_chars(s: Seq<char>) -> Option<ObjectIDView> {
    if has_two_seps(s) {
        None
    } else if has_sep(s) {
        Some(
            ObjectIDView {
                name: s.take(sep_index(s)),
                version: s.skip(sep_index(s) + 1),
            },
        )
    } else {
        Some(ObjectIDView { name: s, version: Seq::empty() })
    }
}

impl ObjectID {
    /// Constructs an object id from its two parts; no validation happens
    /// here, only parsing a combined string validates.
    pub fn new(name: &str, version: &str) -> (r: ObjectID)
        ensures
            r@.name == name@,
            r@.version == version@,
    {
        ObjectID { name: name.to_owned(), version: version.to_owned() }
    }

    /// Renders the canonical string form: `name`, or `name@version` when
    /// the version is non-empty.
    pub fn to_string(&self) -> (r: String)
        ensures
            r@ == object_id_chars(self@),
    {
        let mut s = self.name.clone();
        if !self.version.as_str().is_empty() {
            proof {
                reveal_strlit("@");
            }
            s.append("@");
            s.append(self.version.as_str());
            proof {
                assert(s@ =~= self.name@ + seq!['@'] + self.version@);
            }
        }
        s
    }

    /// Parses a combined string: the part before the `@` separator is
    /// the name, the part after it the version; a string without a
    /// separator is all name.  More than one `@` is a format error.
    pub fn parse(s: &str) -> (r: Result<ObjectID, FormatError>)
        ensures
            match r {
                Ok(o) => object_id_of_chars(s@) == Some(o@),
                Err(e) => object_id_of_chars(s@) is None && e is TooManyParts,
            },
    {
        let len = s.unicode_len();
        let mut i: usize = 0;
        let mut at_pos: Option<usize> = None;
        while i < len
            invariant
                len == s@.len(),
                i <= len,
                match at_pos {
                    Some(p) => p < i && s@[p as int] == '@' && (forall|j: int|
                        0 <= j < i && j != p ==> s@[j] != '@'),
                    None => forall|j: int| 0 <= j < i ==> s@[j] != '@',
                },
            decreases len - i,
        {
            let c = s.get_char(i);
            if c == '@' {
                match at_pos {
                    Some(p) => {
                        proof {
                            assert(0 <= p < i < s@.len() && s@[p as int] == '@' && s@[i as int]
                                == '@');
                            assert(has_two_seps(s@));
                        }
                        return Err(FormatError::TooManyParts);
                    },
                    None => {
                        at_pos = Some(i);
                    },
                }
            }
            i = i + 1;
        }
        match at_pos {
            None => {
                proof {
                    assert(!has_sep(s@));
                    assert(!has_two_seps(s@));
                }
                Ok(ObjectID { name: s.to_owned(), version: String::new() })
            },
            Some(p) => {
                proof {
                    assert(has_sep(s@)) by {
                        assert(0 <= p < s@.len() && s@[p as int] == '@');
                    }
                    assert(!has_two_seps(s@)) by {
                        if has_two_seps(s@) {
                            let (i0, j0) = choose|i0: int, j0: int|
                                0 <= i0 < j0 < s@.len() && s@[i0] == '@' && s@[j0] == '@';
                            assert(i0 == p);
                            assert(j0 == p);
                            assert(false);
                        }
                    }
                    assert(sep_index(s@) == p) by {
                        let q = sep_index(s@);
                        assert(0 <= q < s@.len() && s@[q] == '@');
                    }
                }
                let name = s.substring_char(0, p);
                let version = s.substring_char(p + 1, len);
                proof {
                    assert(name@ =~= s@.take(p as int));
                    assert(version@ =~= s@.skip(p as int + 1));
                }
                Ok(ObjectID { name: name.to_owned(), version: version.to_owned() })
            },
        }
    }
}

/// Rendering an object id in its canonical string form and parsing
/// that string gives the object id back, as long as neither part
/// holds the `@` separator itself.  An id whose name holds an `@`
/// (such as `{name: "a@b", version: ""}`) renders to a string that
/// denotes a different id, so such ids are left out.
pub proof fn lemma_object_id_roundtrip(o: ObjectIDView)
    requires
        !o.name.contains('@'),
        !o.version.contains('@'),
    ensures
        object_id_of_chars(object_id_chars(o)) == Some(o),
{
    let s = object_id_chars(o);
    if o.version.len() == 0 {
        assert(s == o.name);
        assert(!has_sep(s)) by {
            if has_sep(s) {
                let i = choose|i: int| 0 <= i < s.len() && s[i] == '@';
                assert(o.name[i] == '@');
                assert(o.name.contains('@'));
            }
        }
        assert(!has_two_seps(s)) by {
            if has_two_seps(s) {
                let (i0, j0) = choose|i0: int, j0: int|
                    0 <= i0 < j0 < s.len() && s[i0] == '@' && s[j0] == '@';
                assert(o.name[i0] == '@');
                assert(o.name.contains('@'));
            }
        }
        assert(o.version =~= Seq::<char>::empty());
        assert(ObjectIDView { name: s, version: Seq::empty() } == o);
    } else {
        let p = o.name.len() as int;
        assert(s[p] == '@');
        assert forall|j: int| 0 <= j < s.len() && j != p implies s[j] != '@' by {
            if j < p {
                assert(s[j] == o.name[j]);
                if s[j] == '@' {
                    assert(o.name.contains('@'));
                }
            } else {
                assert(s[j] == o.version[j - p - 1]);
                if s[j] == '@' {
                    assert(o.version.contains('@'));
                }
            }
        }
        assert(has_sep(s)) by {
            assert(0 <= p < s.len() && s[p] == '@');
        }
        assert(!has_two_seps(s)) by {
            if has_two_seps(s) {
                let (i0, j0) = choose|i0: int, j0: int|
                    0 <= i0 < j0 < s.len() && s[i0] == '@' && s[j0] == '@';
                assert(i0 == p);
                assert(j0 == p);
                assert(false);
            }
        }
        assert(sep_index(s) == p) by {
            let q = sep_index(s);
            assert(0 <= q < s.len() && s[q] == '@');
        }
        assert(s.take(p) =~= o.name);
        assert(s.skip(p + 1) =~= o.version);
        assert(ObjectIDView { name: s.take(p), version: s.skip(p + 1) } == o);
    }
}

/// An opaque correlation token; doubles as the name of the queue the
/// response to a request is delivered on.
#[derive(Debug, PartialEq, Eq, Clone)]
pub struct Id(pub String);

impl View for Id {
    type V = Seq<char>;

    open spec fn view(&self) -> Seq<char> {
        self.0@
    }
}

impl Id {
    /// Generates a fresh, globally unique identifier.
    pub fn new() -> (r: Id)
        ensures
            r@.len() == 36,
    {
        Id(client::fresh_unique_string())
    }

    /// Wraps a plain string; the inverse of [`Id::to_string`].
    pub fn from_string(s: String) -> (r: Id)
        ensures
            r@ == s@,
    {
        Id(s)
    }

    /// Hands back the plain string; the inverse of [`Id::from_string`].
    pub fn to_string(&self) -> (r: String)
        ensures
            r@ == self@,
    {
        self.0.clone()
    }
}

/// The mathematical content of a [`Request`].
pub struct RequestView {
    pub id: Seq<char>,
    pub arguments: Seq<Seq<u8>>,
    pub object: ObjectIDView,
    pub reply_to: Seq<char>,
    pub method: Seq<char>,
}

/// A method invocation envelope: addressed to an object, carrying
/// opaque binary argument blobs, answered on the queue named by
/// `reply_to`.
#[derive(Debug, PartialEq, Eq)]
pub struct Request {
    pub id: Id,
    pub arguments: Vec<Vec<u8>>,
    pub object: ObjectID,
    pub reply_to: Id,
    pub method: String,
}

impl View for Request {
    type V = RequestView;

    open spec fn view(&self) -> RequestView {
        RequestView {
            id: self.id@,
            arguments: Seq::new(self.arguments@.len(), |i: int| self.arguments@[i]@),
            object: self.object@,
            reply_to: self.reply_to@,
            method: self.method@,
        }
    }
}

impl Request {
    /// Builds a request envelope from its parts.
    pub fn new(id: Id, reply_to: Id, object: ObjectID, method: String, arguments: Vec<Vec<u8>>) -> (
        r: Request)
        ensures
            r@.id == id@,
            r@.reply_to == reply_to@,
            r@.object == object@,
            r@.method == method@,
            r@.arguments == Seq::new(arguments@.len(), |i: int| arguments@[i]@),
    {
        Request { object, reply_to, method, id, arguments }
    }
}

/// The mathematical content of a [`Response`].
pub struct ResponseView {
    pub id: Seq<char>,
    pub arguments: Seq<Seq<u8>>,
    pub error: Seq<char>,
}

/// The answer to a [`Request`]: an empty `error` denotes success, a
/// non-empty one carries the remote side's failure message as text.
#[derive(Debug, PartialEq, Eq)]
pub struct Response {
    pub id: Id,
    pub arguments: Vec<Vec<u8>>,
    pub error: String,
}

impl View for Response {
    type V = ResponseView;

    open spec fn view(&self) -> ResponseView {
        ResponseView {
            id: self.id@,
            arguments: Seq::new(self.arguments@.len(), |i: int| self.arguments@[i]@),
            error: self.error@,
        }
    }
}

impl Response {
    /// Builds a response envelope from its parts.
    pub fn new(id: Id, arguments: Vec<Vec<u8>>, error: String) -> (r: Response)
        ensures
            r@.id == id@,
            r@.arguments == Seq::new(arguments@.len(), |i: int| arguments@[i]@),
            r@.error == error@,
    {
        Response { id, arguments, error }
    }
}

/// A published notification; an extensible record that carries no
/// fields in this envelope version.
#[derive(Debug, PartialEq, Eq)]
pub struct Event {}

} // verus!
