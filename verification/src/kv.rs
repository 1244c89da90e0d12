use vstd::prelude::*;
use crate::text::{chars_of, string_of, push_str, push_char, push_decimal, decimal, trim_trailing, trim_trailing_chars};

verus! {

/// A key-value store reached over HTTP: `GET` and `PUT` on
/// `{base}/v1/kv/{bucket}/{key}` with a bearer token.
pub struct KvStore {
    base: String,
    token: String,
    bucket: String,
}

/// Which request failed.
#[derive(Debug, Clone, Copy, PartialEq, Eq, Structural)]
pub enum KvOperation {
    Get,
    Put,
}

/// A request answered with an unexpected HTTP status.
#[derive(Debug)]
pub struct KvError {
    pub operation: KvOperation,
    pub key: String,
    pub status: u16,
}

impl KvError {
    /// `kv get {key} -> {status}` or `kv set {key} -> {status}`.
    pub open spec fn message_text(self) -> Seq<char> {
        (if self.operation == KvOperation::Get {
            seq!['k', 'v', ' ', 'g', 'e', 't', ' ']
        } else {
            seq!['k', 'v', ' ', 's', 'e', 't', ' ']
        }) + self.key@ + seq![' ', '-', '>', ' '] + decimal(self.status as nat)
    }

    /// The error's text.
    pub fn message(&self) -> (r: String)
        ensures
            r@ == self.message_text(),
    {
        let mut r = String::new();
        proof {
            reveal_strlit("kv get ");
            reveal_strlit("kv set ");
            reveal_strlit(" -> ");
        }
        match self.operation {
            KvOperation::Get => push_str(&mut r, "kv get "),
            KvOperation::Put => push_str(&mut r, "kv set "),
        }
        push_str(&mut r, self.key.as_str());
        push_str(&mut r, " -> ");
        push_decimal(&mut r, self.status as u64);
        assert(r@ =~= self.message_text());
        r
    }
}

impl KvStore {
    pub closed spec fn base_url(self) -> Seq<char> {
        self.base@
    }

    pub closed spec fn bearer_token(self) -> Seq<char> {
        self.token@
    }

    pub closed spec fn bucket_name(self) -> Seq<char> {
        self.bucket@
    }

    /// A store at endpoint `base` (trailing slashes removed), authorised by `token`, using
    /// the bucket `bucket`.
    pub fn new(base: &str, token: String, bucket: String) -> (r: KvStore)
        ensures
            r.base_url() == trim_trailing(base@, '/'),
            r.bearer_token() == token@,
            r.bucket_name() == bucket@,
    {
        let trimmed = trim_trailing_chars(&chars_of(base), '/');
        KvStore { base: string_of(&trimmed), token, bucket }
    }

    /// `{base}/v1/kv/{bucket}/{key}`, the address of one item.
    pub open spec fn item_url_text(self, key: Seq<char>) -> Seq<char> {
        self.base_url() + seq!['/', 'v', '1', '/', 'k', 'v', '/'] + self.bucket_name() + seq!['/'] + key
    }

    /// The address of the item `key`.
    pub fn item_url(&self, key: &str) -> (r: String)
        ensures
            r@ == self.item_url_text(key@),
    {
        let mut r = String::new();
        proof {
            reveal_strlit("/v1/kv/");
        }
        push_str(&mut r, self.base.as_str());
        push_str(&mut r, "/v1/kv/");
        push_str(&mut r, self.bucket.as_str());
        push_char(&mut r, '/');
        push_str(&mut r, key);
        assert(r@ =~= self.item_url_text(key@));
        r
    }

    /// The value of the `authorization` header: `Bearer {token}`.
    pub fn authorization(&self) -> (r: String)
        ensures
            r@ == seq!['B', 'e', 'a', 'r', 'e', 'r', ' '] + self.bearer_token(),
    {
        let mut r = String::new();
        proof {
            reveal_strlit("Bearer ");
        }
        push_str(&mut r, "Bearer ");
        push_str(&mut r, self.token.as_str());
        assert(r@ =~= seq!['B', 'e', 'a', 'r', 'e', 'r', ' '] + self.bearer_token());
        r
    }
}

/// What a read of `key` answered with `status` and `body` means: 200 gives the stored
/// bytes, 404 an absent key, any other status an error.
pub fn read_outcome(key: &str, status: u16, body: Vec<u8>) -> (r: Result<Option<Vec<u8>>, KvError>)
    ensures
        status == 200 ==> r == Ok::<Option<Vec<u8>>, KvError>(Some(body)),
        status == 404 ==> r == Ok::<Option<Vec<u8>>, KvError>(None),
        status != 200 && status != 404 ==> (r matches Err(e) && e.operation == KvOperation::Get
            && e.key@ == key@ && e.status == status),
{
    if status == 200 {
        Ok(Some(body))
    } else if status == 404 {
        Ok(None)
    } else {
        Err(KvError { operation: KvOperation::Get, key: string_of(&chars_of(key)), status })
    }
}

/// What a write of `key` answered with `status` means: any 2xx status is success, any
/// other an error.
pub fn write_outcome(key: &str, status: u16) -> (r: Result<(), KvError>)
    ensures
        200 <= status < 300 ==> r is Ok,
        !(200 <= status < 300) ==> (r matches Err(e) && e.operation == KvOperation::Put && e.key@
            == key@ && e.status == status),
{
    if 200 <= status && status < 300 {
        Ok(())
    } else {
        Err(KvError { operation: KvOperation::Put, key: string_of(&chars_of(key)), status })
    }
}

} // verus!
