use vstd::prelude::*;

use crate::coding::{
    all_varints, decode_varints, encode_varints, lemma_rest_rest, lemma_varints_round_trip, varints,
    varints_parse,
};
use crate::session::Role;
use crate::varint::{
    at_pos, decode_varint, encode_varint, lemma_varint_decode_bounded, lemma_varint_decode_encode,
    rest, varint_encoding, varint_parse, varint_size_spec, DecodeError, MAX_VARINT,
};

verus! {

/// The setup message type sent by the client.
pub const CLIENT_SETUP: u64 = 0x40;

/// The setup message type sent by the server.
pub const SERVER_SETUP: u64 = 0x41;

/// The parameter key reserved for a path, which a server may not send.
pub const PATH_PARAMETER: u64 = 1;

pub open spec fn role_code(r: Role) -> u64 {
    match r {
        Role::Publisher => 1,
        Role::Subscriber => 2,
        Role::Both => 3,
    }
}

pub open spec fn role_of_code(c: u64) -> Option<Role> {
    if c == 1 {
        Some(Role::Publisher)
    } else if c == 2 {
        Some(Role::Subscriber)
    } else if c == 3 {
        Some(Role::Both)
    } else {
        None
    }
}

pub open spec fn role_parse(b: Seq<u8>) -> Result<(Role, nat), DecodeError> {
    match varint_parse(b) {
        Err(e) => Err(e),
        Ok((c, n)) => match role_of_code(c) {
            Some(r) => Ok((r, n)),
            None => Err(DecodeError::InvalidValue),
        },
    }
}

fn encode_role(r: Role, buf: &mut Vec<u8>)
    ensures
        final(buf)@ == old(buf)@ + varint_encoding(role_code(r)),
{
    let c: u64 = match r {
        Role::Publisher => 1,
        Role::Subscriber => 2,
        Role::Both => 3,
    };
    encode_varint(c, buf);
}

fn decode_role(buf: &[u8], pos: usize) -> (r: Result<(Role, usize), DecodeError>)
    requires
        pos <= buf@.len(),
    ensures
        r == at_pos(pos, role_parse(rest(buf@, pos as int))),
        r matches Ok((_, end)) ==> pos < end <= buf@.len(),
        role_parse(rest(buf@, pos as int)) matches Ok((_, n)) ==> pos + n <= buf@.len(),
{
    let (c, end) = decode_varint(buf, pos)?;
    if c == 1 {
        Ok((Role::Publisher, end))
    } else if c == 2 {
        Ok((Role::Subscriber, end))
    } else if c == 3 {
        Ok((Role::Both, end))
    } else {
        Err(DecodeError::InvalidValue)
    }
}

/// One parameter: a key and its value bytes.
pub struct Param {
    pub key: u64,
    pub value: Vec<u8>,
}

pub open spec fn param_view(p: Param) -> (u64, Seq<u8>) {
    (p.key, p.value@)
}

/// `key`, value length, value.
pub open spec fn param_encoding(p: (u64, Seq<u8>)) -> Seq<u8> {
    varint_encoding(p.0) + varint_encoding(p.1.len() as u64) + p.1
}

pub open spec fn params_body(ps: Seq<(u64, Seq<u8>)>) -> Seq<u8>
    decreases ps.len(),
{
    if ps.len() == 0 {
        Seq::empty()
    } else {
        param_encoding(ps[0]) + params_body(ps.drop_first())
    }
}

/// Parameters on the wire: their count, then each of them.
pub open spec fn params_encoding(ps: Seq<(u64, Seq<u8>)>) -> Seq<u8> {
    varint_encoding(ps.len() as u64) + params_body(ps)
}

pub open spec fn param_parse(b: Seq<u8>) -> Result<((u64, Seq<u8>), nat), DecodeError> {
    match varint_parse(b) {
        Err(e) => Err(e),
        Ok((k, n)) => match varint_parse(rest(b, n as int)) {
            Err(e) => Err(e),
            Ok((len, m)) => if b.len() < n + m + len {
                Err(DecodeError::More)
            } else {
                Ok(((k, b.subrange((n + m) as int, (n + m + len) as int)), (n + m + len) as nat))
            },
        },
    }
}

pub open spec fn params_body_parse(b: Seq<u8>, k: nat) -> Result<(Seq<(u64, Seq<u8>)>, nat), DecodeError>
    decreases k,
{
    if k == 0 {
        Ok((Seq::empty(), 0))
    } else {
        match param_parse(b) {
            Err(e) => Err(e),
            Ok((p, n)) => match params_body_parse(rest(b, n as int), (k - 1) as nat) {
                Err(e) => Err(e),
                Ok((ps, m)) => Ok((seq![p] + ps, n + m)),
            },
        }
    }
}

pub open spec fn params_parse(b: Seq<u8>) -> Result<(Seq<(u64, Seq<u8>)>, nat), DecodeError> {
    match varint_parse(b) {
        Err(e) => Err(e),
        Ok((count, n)) => match params_body_parse(rest(b, n as int), count as nat) {
            Err(e) => Err(e),
            Ok((ps, m)) => Ok((ps, n + m)),
        },
    }
}

/// The keys and value lengths fit in varints.
pub open spec fn params_encodable(ps: Seq<(u64, Seq<u8>)>) -> bool {
    &&& ps.len() <= MAX_VARINT
    &&& forall|i: int| 0 <= i < ps.len() ==> (#[trigger] ps[i]).0 <= MAX_VARINT && ps[i].1.len() <= MAX_VARINT
}

proof fn lemma_param_round_trip(p: (u64, Seq<u8>), tail: Seq<u8>)
    requires
        p.0 <= MAX_VARINT,
        p.1.len() <= MAX_VARINT,
    ensures
        param_parse(param_encoding(p) + tail) == Ok::<((u64, Seq<u8>), nat), DecodeError>((p, param_encoding(p).len())),
{
    let ek = varint_encoding(p.0);
    let el = varint_encoding(p.1.len() as u64);
    let b = param_encoding(p) + tail;
    assert(b =~= ek + (el + (p.1 + tail)));
    lemma_varint_decode_encode(p.0, el + (p.1 + tail));
    assert(rest(b, ek.len() as int) =~= el + (p.1 + tail));
    lemma_varint_decode_encode(p.1.len() as u64, p.1 + tail);
    assert(rest(rest(b, ek.len() as int), el.len() as int) =~= p.1 + tail);
    assert(b.subrange((ek.len() + el.len()) as int, (ek.len() + el.len() + p.1.len()) as int) =~= p.1);
}

proof fn lemma_params_body_round_trip(ps: Seq<(u64, Seq<u8>)>, tail: Seq<u8>)
    requires
        params_encodable(ps),
    ensures
        params_body_parse(params_body(ps) + tail, ps.len()) == Ok::<(Seq<(u64, Seq<u8>)>, nat), DecodeError>(
            (ps, params_body(ps).len()),
        ),
    decreases ps.len(),
{
    if ps.len() == 0 {
        assert(ps =~= Seq::<(u64, Seq<u8>)>::empty());
    } else {
        let e = param_encoding(ps[0]);
        let more = params_body(ps.drop_first()) + tail;
        assert(params_body(ps) + tail =~= e + more);
        lemma_param_round_trip(ps[0], more);
        assert(rest(e + more, e.len() as int) =~= more);
        assert(params_encodable(ps.drop_first())) by {
            assert forall|i: int| 0 <= i < ps.drop_first().len() implies (#[trigger] ps.drop_first()[i]).0 <= MAX_VARINT
                && ps.drop_first()[i].1.len() <= MAX_VARINT by {
                assert(ps.drop_first()[i] == ps[i + 1]);
            }
        }
        lemma_params_body_round_trip(ps.drop_first(), tail);
        assert(seq![ps[0]] + ps.drop_first() =~= ps);
    }
}

/// Decoding encoded parameters gives them back.
pub proof fn lemma_params_round_trip(ps: Seq<(u64, Seq<u8>)>, tail: Seq<u8>)
    requires
        params_encodable(ps),
    ensures
        params_parse(params_encoding(ps) + tail) == Ok::<(Seq<(u64, Seq<u8>)>, nat), DecodeError>(
            (ps, params_encoding(ps).len()),
        ),
{
    let e = varint_encoding(ps.len() as u64);
    let more = params_body(ps) + tail;
    assert(params_encoding(ps) + tail =~= e + more);
    lemma_varint_decode_encode(ps.len() as u64, more);
    assert(rest(e + more, e.len() as int) =~= more);
    lemma_params_body_round_trip(ps, tail);
}

/// Setup parameters, in the order they came.
pub struct Params {
    pub entries: Vec<Param>,
}

impl Params {
    pub open spec fn view(&self) -> Seq<(u64, Seq<u8>)> {
        self.entries@.map_values(|p: Param| param_view(p))
    }

    pub fn new() -> (r: Params)
        ensures
            r@ == Seq::<(u64, Seq<u8>)>::empty(),
    {
        let r = Params { entries: Vec::new() };
        assert(r@ =~= Seq::<(u64, Seq<u8>)>::empty());
        r
    }

    /// Whether a parameter with `key` is present.
    pub fn has(&self, key: u64) -> (r: bool)
        ensures
            r == exists|i: int| 0 <= i < self@.len() && (#[trigger] self@[i]).0 == key,
    {
        let mut i: usize = 0;
        while i < self.entries.len()
            invariant
                i <= self.entries@.len(),
                forall|j: int| 0 <= j < i ==> self@[j].0 != key,
            decreases self.entries.len() - i,
        {
            if self.entries[i].key == key {
                assert(self@[i as int].0 == key);
                return true;
            }
            i = i + 1;
        }
        false
    }

    pub fn encode(&self, buf: &mut Vec<u8>)
        requires
            params_encodable(self@),
        ensures
            final(buf)@ == old(buf)@ + params_encoding(self@),
    {
        encode_varint(self.entries.len() as u64, buf);
        let mut i: usize = 0;
        let ghost start = buf@;
        assert(self@.subrange(0, self@.len() as int) =~= self@);
        while i < self.entries.len()
            invariant
                i <= self.entries@.len(),
                params_encodable(self@),
                buf@ + params_body(self@.subrange(i as int, self@.len() as int)) == start + params_body(self@),
            decreases self.entries.len() - i,
        {
            let ghost before = buf@;
            let ghost tail = self@.subrange(i as int, self@.len() as int);
            assert(tail[0] == param_view(self.entries@[i as int]));
            assert(tail.drop_first() =~= self@.subrange(i + 1, self@.len() as int));
            let p = &self.entries[i];
            assert(self@[i as int].0 <= MAX_VARINT && self@[i as int].1.len() <= MAX_VARINT);
            encode_varint(p.key, buf);
            encode_varint(p.value.len() as u64, buf);
            let mut j: usize = 0;
            let ghost mid = buf@;
            while j < p.value.len()
                invariant
                    j <= p.value@.len(),
                    buf@ == mid + p.value@.subrange(0, j as int),
                decreases p.value.len() - j,
            {
                buf.push(p.value[j]);
                assert(buf@ =~= mid + p.value@.subrange(0, j + 1));
                j = j + 1;
            }
            assert(p.value@.subrange(0, p.value@.len() as int) =~= p.value@);
            assert(buf@ =~= before + param_encoding(tail[0]));
            assert(before + params_body(tail) =~= buf@ + params_body(tail.drop_first()));
            i = i + 1;
        }
        assert(self@.subrange(i as int, self@.len() as int) =~= Seq::<(u64, Seq<u8>)>::empty());
        assert(buf@ =~= start + params_body(self@));
    }

    fn decode_param(buf: &[u8], pos: usize) -> (r: Result<(Param, usize), DecodeError>)
        requires
            pos <= buf@.len(),
        ensures
            match param_parse(rest(buf@, pos as int)) {
                Err(e) => r == Err::<(Param, usize), DecodeError>(e),
                Ok((p, n)) => r matches Ok((q, end)) && param_view(q) == p && end == pos + n,
            },
    {
        // Bounds the positions below by usize::MAX.
        let _len = buf.len();
        let (key, p1) = decode_varint(buf, pos)?;
        proof {
            lemma_rest_rest(buf@, pos as int, (p1 - pos) as int);
        }
        let (size, p2) = decode_varint(buf, p1)?;
        if (buf.len() - p2) as u64 <= size && (buf.len() - p2) as u64 != size {
            return Err(DecodeError::More);
        }
        let end = p2 + size as usize;
        let mut value: Vec<u8> = Vec::new();
        let mut i = p2;
        while i < end
            invariant
                p2 <= i <= end <= buf@.len(),
                value@ == buf@.subrange(p2 as int, i as int),
            decreases end - i,
        {
            value.push(buf[i]);
            assert(value@ =~= buf@.subrange(p2 as int, i + 1));
            i = i + 1;
        }
        assert(value@ =~= rest(buf@, pos as int).subrange((p2 - pos) as int, (end - pos) as int));
        Ok((Param { key, value }, end))
    }

    pub fn decode(buf: &[u8], pos: usize) -> (r: Result<(Params, usize), DecodeError>)
        requires
            pos <= buf@.len(),
        ensures
            match params_parse(rest(buf@, pos as int)) {
                Err(e) => r == Err::<(Params, usize), DecodeError>(e),
                Ok((ps, n)) => r matches Ok((q, end)) && q@ == ps && end == pos + n,
            },
    {
        // Bounds the positions below by usize::MAX.
        let _len = buf.len();
        let (count, p0) = decode_varint(buf, pos)?;
        proof {
            lemma_rest_rest(buf@, pos as int, (p0 - pos) as int);
        }
        let mut entries: Vec<Param> = Vec::new();
        let mut p = p0;
        let mut i: u64 = 0;
        while i < count
            invariant
                pos <= p0 <= p <= buf@.len(),
                i <= count,
                varint_parse(rest(buf@, pos as int)) == Ok::<(u64, nat), DecodeError>((count, (p0 - pos) as nat)),
                rest(rest(buf@, pos as int), (p0 - pos) as int) == rest(buf@, p0 as int),
                params_body_parse(rest(buf@, p0 as int), count as nat) == match params_body_parse(
                    rest(buf@, p as int),
                    (count - i) as nat,
                ) {
                    Ok((ps, n)) => Ok((entries@.map_values(|q: Param| param_view(q)) + ps, (p - p0 + n) as nat)),
                    Err(e) => Err::<(Seq<(u64, Seq<u8>)>, nat), DecodeError>(e),
                },
            decreases count - i,
        {
            let ghost b = rest(buf@, p as int);
            let (param, next) = match Params::decode_param(buf, p) {
                Ok(x) => x,
                Err(e) => {
                    assert(params_body_parse(rest(buf@, p as int), (count - i) as nat) == Err::<(Seq<(u64, Seq<u8>)>, nat), DecodeError>(e));
                    return Err(e);
                },
            };
            proof {
                lemma_rest_rest(buf@, p as int, (next - p) as int);
                let tail = params_body_parse(rest(b, (next - p) as int), (count - i - 1) as nat);
                let f = |q: Param| param_view(q);
                match tail {
                    Ok((ps, n)) => {
                        assert(entries@.push(param).map_values(f) + ps =~= entries@.map_values(f) + (seq![param_view(param)] + ps));
                    },
                    Err(_) => {},
                }
            }
            entries.push(param);
            p = next;
            i = i + 1;
        }
        let r = Params { entries };
        assert(r@ + Seq::<(u64, Seq<u8>)>::empty() =~= r@);
        Ok((r, p))
    }
}

/// What a server setup message holds: version, role and parameters.
pub type ServerView = (u64, Role, Seq<(u64, Seq<u8>)>);

/// The server setup on the wire.
pub open spec fn server_encoding(v: ServerView) -> Seq<u8> {
    varint_encoding(SERVER_SETUP) + varint_encoding(v.0) + varint_encoding(role_code(v.1)) + params_encoding(v.2)
}

pub open spec fn has_param(ps: Seq<(u64, Seq<u8>)>, key: u64) -> bool {
    exists|i: int| 0 <= i < ps.len() && (#[trigger] ps[i]).0 == key
}

/// Decoding a server setup: the type must be `SERVER_SETUP`, and the path
/// parameter may not appear.
pub open spec fn server_parse(b: Seq<u8>) -> Result<(ServerView, nat), DecodeError> {
    match varint_parse(b) {
        Err(e) => Err(e),
        Ok((typ, n1)) => if typ != SERVER_SETUP {
            Err(DecodeError::InvalidMessage(typ))
        } else {
            match varint_parse(rest(b, n1 as int)) {
                Err(e) => Err(e),
                Ok((version, n2)) => match role_parse(rest(b, (n1 + n2) as int)) {
                    Err(e) => Err(e),
                    Ok((role, n3)) => match params_parse(rest(b, (n1 + n2 + n3) as int)) {
                        Err(e) => Err(e),
                        Ok((ps, n4)) => if has_param(ps, PATH_PARAMETER) {
                            Err(DecodeError::InvalidParameter)
                        } else {
                            Ok(((version, role, ps), n1 + n2 + n3 + n4))
                        },
                    },
                },
            }
        },
    }
}

/// Sent by the server in reply to the client's setup.
pub struct Server {
    pub version: u64,
    pub role: Role,
    pub params: Params,
}

impl Server {
    pub open spec fn view(&self) -> ServerView {
        (self.version, self.role, self.params@)
    }

    pub fn encode(&self, buf: &mut Vec<u8>)
        requires
            self.version <= MAX_VARINT,
            params_encodable(self.params@),
        ensures
            final(buf)@ == old(buf)@ + server_encoding(self@),
    {
        encode_varint(SERVER_SETUP, buf);
        encode_varint(self.version, buf);
        encode_role(self.role, buf);
        self.params.encode(buf);
        assert(buf@ =~= old(buf)@ + server_encoding(self@));
    }

    pub fn decode(buf: &[u8], pos: usize) -> (r: Result<(Server, usize), DecodeError>)
        requires
            pos <= buf@.len(),
        ensures
            match server_parse(rest(buf@, pos as int)) {
                Err(e) => r == Err::<(Server, usize), DecodeError>(e),
                Ok((v, n)) => r matches Ok((s, end)) && s@ == v && end == pos + n,
            },
    {
        // Bounds the positions below by usize::MAX.
        let _len = buf.len();
        let (typ, p1) = decode_varint(buf, pos)?;
        if typ != SERVER_SETUP {
            return Err(DecodeError::InvalidMessage(typ));
        }
        proof {
            lemma_rest_rest(buf@, pos as int, (p1 - pos) as int);
        }
        let (version, p2) = decode_varint(buf, p1)?;
        proof {
            lemma_rest_rest(buf@, pos as int, (p2 - pos) as int);
        }
        let (role, p3) = decode_role(buf, p2)?;
        proof {
            lemma_rest_rest(buf@, pos as int, (p3 - pos) as int);
        }
        let (params, end) = Params::decode(buf, p3)?;
        if params.has(PATH_PARAMETER) {
            return Err(DecodeError::InvalidParameter);
        }
        Ok((Server { version, role, params }, end))
    }
}

/// Decoding an encoded server setup gives it back.
pub proof fn lemma_server_round_trip(v: ServerView, tail: Seq<u8>)
    requires
        v.0 <= MAX_VARINT,
        params_encodable(v.2),
        !has_param(v.2, PATH_PARAMETER),
    ensures
        server_parse(server_encoding(v) + tail) == Ok::<(ServerView, nat), DecodeError>((v, server_encoding(v).len())),
{
    let e1 = varint_encoding(SERVER_SETUP);
    let e2 = varint_encoding(v.0);
    let e3 = varint_encoding(role_code(v.1));
    let e4 = params_encoding(v.2);
    let b = server_encoding(v) + tail;
    let (n1, n2, n3, n4) = (e1.len(), e2.len(), e3.len(), e4.len());
    assert(b =~= e1 + (e2 + (e3 + (e4 + tail))));
    lemma_varint_decode_encode(SERVER_SETUP, e2 + (e3 + (e4 + tail)));
    assert(varint_size_spec(SERVER_SETUP) == n1);
    assert(varint_parse(b) == Ok::<(u64, nat), DecodeError>((SERVER_SETUP, n1)));
    assert(rest(b, n1 as int) =~= e2 + (e3 + (e4 + tail)));
    lemma_varint_decode_encode(v.0, e3 + (e4 + tail));
    assert(varint_parse(rest(b, n1 as int)) == Ok::<(u64, nat), DecodeError>((v.0, n2)));
    assert(rest(b, (n1 + n2) as int) =~= e3 + (e4 + tail));
    lemma_varint_decode_encode(role_code(v.1), e4 + tail);
    assert(role_parse(rest(b, (n1 + n2) as int)) == Ok::<(Role, nat), DecodeError>((v.1, n3)));
    assert(rest(b, (n1 + n2 + n3) as int) =~= e4 + tail);
    lemma_params_round_trip(v.2, tail);
    assert(params_parse(rest(b, (n1 + n2 + n3) as int)) == Ok::<(Seq<(u64, Seq<u8>)>, nat), DecodeError>((v.2, n4)));
    assert(server_encoding(v).len() == n1 + n2 + n3 + n4);
}

/// What a client setup message holds: offered versions, role and parameters.
pub type ClientView = (Seq<u64>, Role, Seq<(u64, Seq<u8>)>);

/// The client setup on the wire.
pub open spec fn client_encoding(v: ClientView) -> Seq<u8> {
    varint_encoding(CLIENT_SETUP) + varint_encoding(v.0.len() as u64) + varints(v.0) + varint_encoding(role_code(v.1))
        + params_encoding(v.2)
}

/// Decoding a client setup: the type must be `CLIENT_SETUP`.
pub open spec fn client_parse(b: Seq<u8>) -> Result<(ClientView, nat), DecodeError> {
    match varint_parse(b) {
        Err(e) => Err(e),
        Ok((typ, n1)) => if typ != CLIENT_SETUP {
            Err(DecodeError::InvalidMessage(typ))
        } else {
            match varint_parse(rest(b, n1 as int)) {
                Err(e) => Err(e),
                Ok((count, n2)) => match varints_parse(rest(b, (n1 + n2) as int), count as nat) {
                    Err(e) => Err(e),
                    Ok((versions, n3)) => match role_parse(rest(b, (n1 + n2 + n3) as int)) {
                        Err(e) => Err(e),
                        Ok((role, n4)) => match params_parse(rest(b, (n1 + n2 + n3 + n4) as int)) {
                            Err(e) => Err(e),
                            Ok((ps, n5)) => Ok(((versions, role, ps), n1 + n2 + n3 + n4 + n5)),
                        },
                    },
                },
            }
        },
    }
}

/// Sent by the client when a session opens.
pub struct Client {
    pub versions: Vec<u64>,
    pub role: Role,
    pub params: Params,
}

impl Client {
    pub open spec fn view(&self) -> ClientView {
        (self.versions@, self.role, self.params@)
    }

    pub fn encode(&self, buf: &mut Vec<u8>)
        requires
            self.versions@.len() <= MAX_VARINT,
            all_varints(self.versions@),
            params_encodable(self.params@),
        ensures
            final(buf)@ == old(buf)@ + client_encoding(self@),
    {
        encode_varint(CLIENT_SETUP, buf);
        encode_varint(self.versions.len() as u64, buf);
        encode_varints(self.versions.as_slice(), buf);
        encode_role(self.role, buf);
        self.params.encode(buf);
        assert(buf@ =~= old(buf)@ + client_encoding(self@));
    }

    pub fn decode(buf: &[u8], pos: usize) -> (r: Result<(Client, usize), DecodeError>)
        requires
            pos <= buf@.len(),
        ensures
            match client_parse(rest(buf@, pos as int)) {
                Err(e) => r == Err::<(Client, usize), DecodeError>(e),
                Ok((v, n)) => r matches Ok((c, end)) && c@ == v && end == pos + n,
            },
    {
        // Bounds the positions below by usize::MAX.
        let _len = buf.len();
        let (typ, p1) = decode_varint(buf, pos)?;
        if typ != CLIENT_SETUP {
            return Err(DecodeError::InvalidMessage(typ));
        }
        proof {
            lemma_rest_rest(buf@, pos as int, (p1 - pos) as int);
        }
        let (count, p2) = decode_varint(buf, p1)?;
        proof {
            lemma_rest_rest(buf@, pos as int, (p2 - pos) as int);
        }
        let (versions, p3) = decode_varints(buf, p2, count)?;
        proof {
            lemma_rest_rest(buf@, pos as int, (p3 - pos) as int);
        }
        let (role, p4) = decode_role(buf, p3)?;
        proof {
            lemma_rest_rest(buf@, pos as int, (p4 - pos) as int);
        }
        let (params, end) = Params::decode(buf, p4)?;
        Ok((Client { versions, role, params }, end))
    }
}

/// Decoding an encoded client setup gives it back.
pub proof fn lemma_client_round_trip(v: ClientView, tail: Seq<u8>)
    requires
        v.0.len() <= MAX_VARINT,
        all_varints(v.0),
        params_encodable(v.2),
    ensures
        client_parse(client_encoding(v) + tail) == Ok::<(ClientView, nat), DecodeError>((v, client_encoding(v).len())),
{
    let e1 = varint_encoding(CLIENT_SETUP);
    let e2 = varint_encoding(v.0.len() as u64);
    let e3 = varints(v.0);
    let e4 = varint_encoding(role_code(v.1));
    let e5 = params_encoding(v.2);
    let b = client_encoding(v) + tail;
    let (n1, n2, n3, n4, n5) = (e1.len(), e2.len(), e3.len(), e4.len(), e5.len());
    assert(b =~= e1 + (e2 + (e3 + (e4 + (e5 + tail)))));
    lemma_varint_decode_encode(CLIENT_SETUP, e2 + (e3 + (e4 + (e5 + tail))));
    assert(varint_size_spec(CLIENT_SETUP) == n1);
    assert(varint_parse(b) == Ok::<(u64, nat), DecodeError>((CLIENT_SETUP, n1)));
    assert(rest(b, n1 as int) =~= e2 + (e3 + (e4 + (e5 + tail))));
    lemma_varint_decode_encode(v.0.len() as u64, e3 + (e4 + (e5 + tail)));
    assert(varint_parse(rest(b, n1 as int)) == Ok::<(u64, nat), DecodeError>((v.0.len() as u64, n2)));
    assert(rest(b, (n1 + n2) as int) =~= e3 + (e4 + (e5 + tail)));
    lemma_varints_round_trip(v.0, e4 + (e5 + tail));
    assert(varints_parse(rest(b, (n1 + n2) as int), v.0.len()) == Ok::<(Seq<u64>, nat), DecodeError>((v.0, n3)));
    assert(rest(b, (n1 + n2 + n3) as int) =~= e4 + (e5 + tail));
    lemma_varint_decode_encode(role_code(v.1), e5 + tail);
    assert(role_parse(rest(b, (n1 + n2 + n3) as int)) == Ok::<(Role, nat), DecodeError>((v.1, n4)));
    assert(rest(b, (n1 + n2 + n3 + n4) as int) =~= e5 + tail);
    lemma_params_round_trip(v.2, tail);
    assert(params_parse(rest(b, (n1 + n2 + n3 + n4) as int)) == Ok::<(Seq<(u64, Seq<u8>)>, nat), DecodeError>((v.2, n5)));
    assert(client_encoding(v).len() == n1 + n2 + n3 + n4 + n5);
}

} // verus!
