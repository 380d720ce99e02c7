use vstd::prelude::*;
use crate::error::KvsError;

verus! {

/// The pieces of `s` between single spaces, as splitting on `" "` gives
/// them: `n` spaces give `n + 1` pieces, some of them maybe empty.
pub open spec fn split_spaces(s: Seq<char>) -> Seq<Seq<char>>
    decreases s.len(),
{
    if s.len() == 0 {
        seq![Seq::empty()]
    } else {
        let t = split_spaces(s.drop_last());
        if s.last() == ' ' {
            t.push(Seq::empty())
        } else {
            t.update(t.len() - 1, t.last().push(s.last()))
        }
    }
}

proof fn lemma_split_nonempty(s: Seq<char>)
    ensures
        split_spaces(s).len() > 0,
    decreases s.len(),
{
    if s.len() > 0 {
        lemma_split_nonempty(s.drop_last());
    }
}

/// Splits `text` on single spaces.
pub fn split_request(text: &str) -> (r: Vec<String>)
    ensures
        r@.map_values(|t: String| t@) == split_spaces(text@),
{
    let len = text.unicode_len();
    let ghost s = text@;
    let mut tokens: Vec<String> = Vec::new();
    let mut start: usize = 0;
    let mut i: usize = 0;
    proof {
        assert(s.subrange(0, 0) =~= Seq::<char>::empty());
        assert(tokens@.map_values(|t: String| t@).push(s.subrange(0, 0)) =~= seq![Seq::<char>::empty()]);
    }
    while i < len
        invariant
            len == s.len(),
            s == text@,
            start <= i <= len,
            split_spaces(s.subrange(0, i as int)) == tokens@.map_values(|t: String| t@).push(
                s.subrange(start as int, i as int),
            ),
        decreases len - i,
    {
        let ghost prev = tokens@.map_values(|t: String| t@);
        proof {
            assert(s.subrange(0, i + 1).drop_last() =~= s.subrange(0, i as int));
            lemma_split_nonempty(s.subrange(0, i as int));
        }
        if text.get_char(i) == ' ' {
            let piece = String::from_str(text.substring_char(start, i));
            tokens.push(piece);
            start = i + 1;
            proof {
                assert(tokens@.map_values(|t: String| t@) =~= prev.push(piece@));
                assert(s.subrange(start as int, i + 1) =~= Seq::<char>::empty());
            }
        } else {
            proof {
                assert(s.subrange(start as int, i + 1) =~= s.subrange(start as int, i as int).push(
                    s[i as int],
                ));
                assert(prev.push(s.subrange(start as int, i as int)).update(
                    prev.len() as int,
                    s.subrange(start as int, i + 1),
                ) =~= prev.push(s.subrange(start as int, i + 1)));
            }
        }
        i = i + 1;
    }
    let last = String::from_str(text.substring_char(start, len));
    let ghost prev = tokens@.map_values(|t: String| t@);
    tokens.push(last);
    proof {
        assert(s.subrange(0, len as int) =~= s);
        assert(tokens@.map_values(|t: String| t@) =~= prev.push(last@));
    }
    tokens
}

/// One request of the wire protocol.
#[derive(Debug, Clone)]
pub enum Request {
    Get { key: String },
    Put { key: String, value: String },
    Remove { key: String },
}

/// A request with its texts seen as character sequences.
pub enum RequestView {
    Get { key: Seq<char> },
    Put { key: Seq<char>, value: Seq<char> },
    Remove { key: Seq<char> },
}

impl View for Request {
    type V = RequestView;

    open spec fn view(&self) -> RequestView {
        match self {
            Request::Get { key } => RequestView::Get { key: key@ },
            Request::Put { key, value } => RequestView::Put { key: key@, value: value@ },
            Request::Remove { key } => RequestView::Remove { key: key@ },
        }
    }
}

/// The verbs of the protocol.
pub open spec fn verb_get() -> Seq<char> {
    seq!['g', 'e', 't']
}

pub open spec fn verb_set() -> Seq<char> {
    seq!['s', 'e', 't']
}

pub open spec fn verb_rm() -> Seq<char> {
    seq!['r', 'm']
}

/// The request that a list of pieces spells, if any: a verb, a non-empty
/// key and, for `set`, a value, and nothing more.
pub open spec fn request_spec(t: Seq<Seq<char>>) -> Option<RequestView> {
    if t.len() == 2 && t[1].len() > 0 && t[0] == verb_get() {
        Some(RequestView::Get { key: t[1] })
    } else if t.len() == 3 && t[1].len() > 0 && t[0] == verb_set() {
        Some(RequestView::Put { key: t[1], value: t[2] })
    } else if t.len() == 2 && t[1].len() > 0 && t[0] == verb_rm() {
        Some(RequestView::Remove { key: t[1] })
    } else {
        None
    }
}

/// The first piece names a verb of the protocol.
pub open spec fn known_verb(v: Seq<char>) -> bool {
    v == verb_get() || v == verb_set() || v == verb_rm()
}

/// Parses the text of one request. A first piece that is no verb gives
/// `UnKnownOperation` with that piece; a known verb with a missing, empty or
/// extra piece gives `BadRequest`.
pub fn parse_request(text: &str) -> (r: Result<Request, KvsError>)
    ensures
        r matches Ok(q) ==> request_spec(split_spaces(text@)) == Some(q@),
        r is Ok <==> request_spec(split_spaces(text@)) is Some,
        r matches Err(e) ==> if known_verb(split_spaces(text@)[0]) {
            e == KvsError::BadRequest
        } else {
            e matches KvsError::UnKnownOperation(v) && v@ == split_spaces(text@)[0]
        },
{
    let tokens = split_request(text);
    proof {
        lemma_split_nonempty(text@);
        reveal_strlit("get");
        reveal_strlit("set");
        reveal_strlit("rm");
        assert("get"@ =~= verb_get());
        assert("set"@ =~= verb_set());
        assert("rm"@ =~= verb_rm());
    }
    let ghost t = tokens@.map_values(|t: String| t@);
    assert(t.len() == tokens@.len());
    assert(t[0] == tokens@[0]@);
    let verb = &tokens[0];
    let n = tokens.len();
    let is_get = *verb == String::from_str("get");
    let is_set = *verb == String::from_str("set");
    let is_rm = *verb == String::from_str("rm");
    if !is_get && !is_set && !is_rm {
        return Err(KvsError::UnKnownOperation(verb.clone()));
    }
    if n < 2 || n > 3 || tokens[1].unicode_len() == 0 {
        return Err(KvsError::BadRequest);
    }
    assert(t[1] == tokens@[1]@);
    let key = tokens[1].clone();
    if is_set {
        if n != 3 {
            return Err(KvsError::BadRequest);
        }
        assert(t[2] == tokens@[2]@);
        Ok(Request::Put { key, value: tokens[2].clone() })
    } else if n != 2 {
        Err(KvsError::BadRequest)
    } else if is_get {
        Ok(Request::Get { key })
    } else {
        Ok(Request::Remove { key })
    }
}

/// The reply text for the result of a `get`: the value, or `Key not found`.
pub fn get_reply(value: Option<String>) -> (r: String)
    ensures
        value matches Some(v) ==> r@ == v@,
        value is None ==> r@ == "Key not found"@,
{
    match value {
        Some(v) => v,
        None => String::from_str("Key not found"),
    }
}

/// The reply text for a `rm` of a key that the store does not hold.
pub fn remove_miss_reply(key: &String) -> (r: String)
    ensures
        r@ == "Key not found: "@ + key@,
{
    let mut s = String::from_str("Key not found: ");
    s.append(key.as_str());
    s
}

/// A client of the wire protocol: the address of the server, and the text of
/// each request it sends.
pub struct Client {
    addr: String,
}

impl Client {
    pub fn new(addr: String) -> (r: Self)
        ensures
            r.addr_view() == addr@,
    {
        Client { addr }
    }

    pub closed spec fn addr_view(&self) -> Seq<char> {
        self.addr@
    }

    /// The address of the server.
    pub fn addr(&self) -> (r: &String)
        ensures
            r@ == self.addr_view(),
    {
        &self.addr
    }

    /// The text of a `get` request for `key`.
    pub fn get_request(&self, key: &str) -> (r: String)
        ensures
            r@ == "get "@ + key@,
    {
        let mut s = String::from_str("get ");
        s.append(key);
        s
    }

    /// The text of a `set` request for `key` and `value`.
    pub fn set_request(&self, key: &str, value: &str) -> (r: String)
        ensures
            r@ == "set "@ + key@ + " "@ + value@,
    {
        let mut s = String::from_str("set ");
        s.append(key);
        s.append(" ");
        s.append(value);
        s
    }

    /// The text of a `rm` request for `key`.
    pub fn remove_request(&self, key: &str) -> (r: String)
        ensures
            r@ == "rm "@ + key@,
    {
        let mut s = String::from_str("rm ");
        s.append(key);
        s
    }
}

} // verus!
