//! The user store's records and the password digest its lookup compares.

use vstd::prelude::*;
use sha2::Digest;
use vstd::string::*;

verus! {

/// A user known to the store.
pub struct User {
    id: u32,
    username: String,
}

impl User {
    pub fn new(id: u32, username: String) -> (r: User)
        ensures
            r.user_id() == id,
            r.name() == username@,
    {
        User { id, username }
    }

    pub closed spec fn user_id(&self) -> u32 {
        self.id
    }

    pub closed spec fn name(&self) -> Seq<char> {
        self.username@
    }

    pub fn id(&self) -> (r: u32)
        ensures
            r == self.user_id(),
    {
        self.id
    }

    pub fn username(&self) -> (r: &str)
        ensures
            r@ == self.name(),
    {
        self.username.as_str()
    }
}

/// A chat channel of the store.
pub struct Channel {
    pub id: i32,
    pub name: String,
}

/// Settings for opening the store: where it lives and how many connections
/// its pool may hold.
pub struct DatabaseBuilder {
    pub path: Option<String>,
    pub num_connections: Option<usize>,
}

impl Default for DatabaseBuilder {
    fn default() -> (r: DatabaseBuilder)
        ensures
            r.path.is_none(),
            r.num_connections.is_none(),
    {
        DatabaseBuilder { path: None, num_connections: None }
    }
}

impl DatabaseBuilder {
    /// Sets the file the store lives in.
    pub fn path(self, path: String) -> (r: DatabaseBuilder)
        ensures
            r.path == Some(path),
            r.num_connections == self.num_connections,
    {
        DatabaseBuilder { path: Some(path), ..self }
    }

    /// Sets how many connections the pool may hold.
    pub fn num_connections(self, n: usize) -> (r: DatabaseBuilder)
        ensures
            r.path == self.path,
            r.num_connections == Some(n),
    {
        DatabaseBuilder { num_connections: Some(n), ..self }
    }

    /// The pool size to open with: the one set, else 1.
    pub fn connections(&self) -> (r: usize)
        ensures
            r == (match self.num_connections {
                Some(n) => n,
                None => 1,
            }),
    {
        match self.num_connections {
            Some(n) => n,
            None => 1,
        }
    }
}

/// The SHA-256 digest of some bytes.
pub uninterp spec fn sha256_of(data: Seq<u8>) -> Seq<u8>;

/// Relies on sha2::Sha256::digest: the SHA-256 digest of the data, which is
/// 32 bytes long.
#[verifier::external_body]
fn sha256(data: &[u8]) -> (r: Vec<u8>)
    ensures
        r@ == sha256_of(data@),
        r@.len() == 32,
{
    sha2::Sha256::digest(data).to_vec()
}

/// The lower-case hexadecimal digit of a value under 16, as an ASCII byte.
pub open spec fn hex_digit(v: u8) -> u8 {
    if v < 10 {
        (0x30 + v) as u8
    } else {
        (0x61 + v - 10) as u8
    }
}

/// Two lower-case hexadecimal digits per byte, high half first.
pub open spec fn hex_of(b: Seq<u8>) -> Seq<u8>
    decreases b.len(),
{
    if b.len() == 0 {
        seq![]
    } else {
        hex_of(b.drop_last()) + seq![hex_digit(b.last() / 16), hex_digit(b.last() % 16)]
    }
}

fn hex_char(v: u8) -> (r: u8)
    requires
        v < 16,
    ensures
        r == hex_digit(v),
{
    if v < 10 {
        0x30 + v
    } else {
        0x61 + v - 10
    }
}

/// Encodes bytes as lower-case hexadecimal text, as ASCII bytes.
pub fn hex_lower(bytes: &[u8]) -> (r: Vec<u8>)
    ensures
        r@ == hex_of(bytes@),
{
    let mut out: Vec<u8> = Vec::new();
    let mut i: usize = 0;
    while i < bytes.len()
        invariant
            i <= bytes@.len(),
            out@ == hex_of(bytes@.subrange(0, i as int)),
        decreases bytes.len() - i,
    {
        let b = bytes[i];
        out.push(hex_char(b / 16));
        out.push(hex_char(b % 16));
        proof {
            let s = bytes@.subrange(0, i + 1);
            assert(s.drop_last() =~= bytes@.subrange(0, i as int));
            assert(s.last() == b);
            assert(out@ =~= hex_of(s));
        }
        i = i + 1;
    }
    proof {
        assert(bytes@.subrange(0, i as int) =~= bytes@);
    }
    out
}

/// The digest the store keeps for a password: its SHA-256 digest in
/// lower-case hexadecimal, as ASCII bytes.
pub fn digest_password(password: &str) -> (r: Vec<u8>)
    ensures
        r@ == hex_of(sha256_of(password.spec_bytes())),
{
    let digest = sha256(password.as_bytes());
    hex_lower(digest.as_slice())
}

} // verus!
