//! The password store: the master password, the encryption of saved passwords,
//! the saved credentials and what is filled into pages.

use vstd::prelude::*;

use crate::crypto;
use crate::encoding;
use crate::records;
use crate::records::Record;
use crate::script;
use crate::settings;
use crate::settings::Settings;
use crate::sorting;
use crate::text;

verus! {

// Encryption.

/// How many bytes the salt of the master password has.
pub const ARGON2_SALT_LEN: usize = 16;

/// How many bytes a nonce has.
pub const AES_NONCE_LEN: usize = 12;

/// Derive a 256-bit key from the master password and salt using Argon2id.
pub fn derive_key(master_password: &str, salt: &[u8]) -> (key: [u8; 32])
    requires
        vstd::utf8::encode_utf8(master_password@).len() <= crypto::ARGON2_MAX_LEN,
        8 <= salt@.len() <= crypto::ARGON2_MAX_LEN,
    ensures
        key@ == crypto::argon2id(vstd::utf8::encode_utf8(master_password@), salt@),
{
    crypto::argon2_hash(master_password.as_bytes(), salt)
}

/// What `nonce || ciphertext || tag` holds under a key; `None` where it is too
/// short or does not authenticate.
pub open spec fn unsealed(data: Seq<u8>, key: Seq<u8>) -> Option<Seq<u8>> {
    if data.len() < AES_NONCE_LEN + crypto::AES_TAG_LEN {
        None
    } else {
        crypto::aes_opened(
            key,
            data.take(AES_NONCE_LEN as int),
            data.skip(AES_NONCE_LEN as int),
        )
    }
}

/// Encrypt `plaintext` with AES-256-GCM under the given key and nonce.
/// Returns `nonce || ciphertext || tag`.
pub fn aes_encrypt_with(plaintext: &[u8], key: &[u8; 32], nonce: &[u8]) -> (r: Vec<u8>)
    requires
        nonce@.len() == AES_NONCE_LEN,
        plaintext@.len() <= crypto::AES_MAX_LEN,
    ensures
        r@ == nonce@ + crypto::aes_sealed(key@, nonce@, plaintext@),
        r@.len() == AES_NONCE_LEN + plaintext@.len() + crypto::AES_TAG_LEN,
        unsealed(r@, key@) == Some(plaintext@),
{
    let mut ciphertext = crypto::aes_seal(key, nonce, plaintext);
    let ghost sealed = ciphertext@;
    let mut r: Vec<u8> = Vec::new();
    r.extend_from_slice(nonce);
    assert(r@ =~= nonce@);
    r.append(&mut ciphertext);
    assert(r@.take(AES_NONCE_LEN as int) =~= nonce@);
    assert(r@.skip(AES_NONCE_LEN as int) =~= sealed);
    r
}

/// Encrypt `plaintext` with AES-256-GCM under the given key and a fresh random
/// nonce. Returns `nonce || ciphertext || tag`.
pub fn aes_encrypt(plaintext: &[u8], key: &[u8; 32]) -> (r: Vec<u8>)
    requires
        plaintext@.len() <= crypto::AES_MAX_LEN,
    ensures
        r@.len() == AES_NONCE_LEN + plaintext@.len() + crypto::AES_TAG_LEN,
        r@ == r@.take(AES_NONCE_LEN as int) + crypto::aes_sealed(
            key@,
            r@.take(AES_NONCE_LEN as int),
            plaintext@,
        ),
        unsealed(r@, key@) == Some(plaintext@),
{
    let nonce = crypto::random_bytes(AES_NONCE_LEN);
    let r = aes_encrypt_with(plaintext, key, nonce.as_slice());
    assert(r@.take(AES_NONCE_LEN as int) =~= nonce@);
    r
}

/// Decrypt `nonce || ciphertext || tag` with AES-256-GCM. `None` if the data is
/// too short, or decryption or authentication fails (wrong key).
pub fn aes_decrypt(data: &[u8], key: &[u8; 32]) -> (r: Option<Vec<u8>>)
    ensures
        match r {
            Some(plaintext) => unsealed(data@, key@) == Some(plaintext@),
            None => unsealed(data@, key@) is None,
        },
{
    if data.len() < AES_NONCE_LEN + crypto::AES_TAG_LEN {
        return None;
    }
    let nonce = vstd::slice::slice_subrange(data, 0, AES_NONCE_LEN);
    let sealed = vstd::slice::slice_subrange(data, AES_NONCE_LEN, data.len());
    assert(nonce@ =~= data@.take(AES_NONCE_LEN as int));
    assert(sealed@ =~= data@.skip(AES_NONCE_LEN as int));
    crypto::aes_open(key, nonce, sealed)
}

/// The password that a stored text holds under a key; empty where the key is
/// wrong or the text is corrupt.
pub open spec fn decrypted(key: Option<Seq<u8>>, stored: Seq<char>) -> Seq<char> {
    match (key, encoding::decoded(stored)) {
        (Some(k), Some(data)) => match unsealed(data, k) {
            Some(bytes) => if vstd::utf8::valid_utf8(bytes) {
                vstd::utf8::decode_utf8(bytes)
            } else {
                Seq::empty()
            },
            None => Seq::empty(),
        },
        _ => Seq::empty(),
    }
}

/// How a password is stored, encrypted under a key and a nonce.
pub open spec fn encryption(key: Seq<u8>, nonce: Seq<u8>, plaintext: Seq<char>) -> Seq<char> {
    encoding::encoded(
        nonce + crypto::aes_sealed(key, nonce, vstd::utf8::encode_utf8(plaintext)),
    )
}

/// Whether a stored text is a password, encrypted under a key and some nonce.
pub open spec fn encrypts(key: Option<Seq<u8>>, plaintext: Seq<char>, stored: Seq<char>) -> bool {
    &&& key is Some
    &&& decrypted(key, stored) == plaintext
    &&& exists|nonce: Seq<u8>|
        nonce.len() == AES_NONCE_LEN && stored == #[trigger] encryption(key->0, nonce, plaintext)
}

/// Encrypt a password under a key and a nonce, for storage.
pub fn encrypt_password_with(plaintext: &str, key: &[u8; 32], nonce: &[u8]) -> (r: String)
    requires
        nonce@.len() == AES_NONCE_LEN,
        vstd::utf8::encode_utf8(plaintext@).len() <= crypto::AES_MAX_LEN,
    ensures
        r@ == encryption(key@, nonce@, plaintext@),
        encrypts(Some(key@), plaintext@, r@),
{
    let data = aes_encrypt_with(plaintext.as_bytes(), key, nonce);
    proof {
        encoding::law_decode_inverts_encode(data@);
        vstd::utf8::encode_utf8_valid_utf8(plaintext@);
        vstd::utf8::encode_utf8_decode_utf8(plaintext@);
        assert(encoding::encoded(data@) == encryption(key@, nonce@, plaintext@));
    }
    encoding::base64_encode(data.as_slice())
}

fn decrypt_with(key: &[u8; 32], stored: &str) -> (r: String)
    ensures
        r@ == decrypted(Some(key@), stored@),
{
    if let Some(data) = encoding::base64_decode(stored) {
        if let Some(bytes) = aes_decrypt(data.as_slice(), key) {
            if let Some(plaintext) = text::string_from_utf8(bytes) {
                return plaintext;
            }
        }
    }
    let r = String::new();
    assert(r@ =~= Seq::empty());
    r
}

// Credentials.

/// A saved login credential.
#[derive(Clone, Debug)]
pub struct SavedCredential {
    pub id: i64,
    pub origin: String,
    pub username: String,
    pub password: String,
    pub created: String,
    pub last_used: String,
    pub use_count: i64,
}

/// What a saved credential holds.
#[verifier::ext_equal]
pub struct Saved {
    pub id: i64,
    pub origin: Seq<char>,
    pub username: Seq<char>,
    pub password: Seq<char>,
    pub created: Seq<char>,
    pub last_used: Seq<char>,
    pub use_count: i64,
}

impl View for SavedCredential {
    type V = Saved;

    open spec fn view(&self) -> Saved {
        Saved {
            id: self.id,
            origin: self.origin@,
            username: self.username@,
            password: self.password@,
            created: self.created@,
            last_used: self.last_used@,
            use_count: self.use_count,
        }
    }
}

impl Record for SavedCredential {
    fn copied(&self) -> (r: Self) {
        SavedCredential {
            id: self.id,
            origin: self.origin.clone(),
            username: self.username.clone(),
            password: self.password.clone(),
            created: self.created.clone(),
            last_used: self.last_used.clone(),
            use_count: self.use_count,
        }
    }
}

/// A credential as it is stored, its password encrypted.
pub struct StoredCredential {
    pub id: i64,
    pub origin: String,
    pub username: String,
    pub password_enc: String,
    pub created: String,
    pub last_used: String,
    pub use_count: i64,
}

/// What a stored credential holds.
#[verifier::ext_equal]
pub struct Stored {
    pub id: i64,
    pub origin: Seq<char>,
    pub username: Seq<char>,
    pub password_enc: Seq<char>,
    pub created: Seq<char>,
    pub last_used: Seq<char>,
    pub use_count: i64,
}

impl View for StoredCredential {
    type V = Stored;

    open spec fn view(&self) -> Stored {
        Stored {
            id: self.id,
            origin: self.origin@,
            username: self.username@,
            password_enc: self.password_enc@,
            created: self.created@,
            last_used: self.last_used@,
            use_count: self.use_count,
        }
    }
}

impl Record for StoredCredential {
    fn copied(&self) -> (r: Self) {
        StoredCredential {
            id: self.id,
            origin: self.origin.clone(),
            username: self.username.clone(),
            password_enc: self.password_enc.clone(),
            created: self.created.clone(),
            last_used: self.last_used.clone(),
            use_count: self.use_count,
        }
    }
}

/// The password store: the key of this session, where the store is unlocked,
/// the credentials in the order in which they were made, and the highest
/// number ever given to one. The key is never written anywhere.
pub struct Passwords {
    key: Option<[u8; 32]>,
    rows: Vec<StoredCredential>,
    last_id: i64,
}

/// What the password store holds.
#[verifier::ext_equal]
pub struct PasswordTable {
    pub key: Option<Seq<u8>>,
    pub rows: Seq<Stored>,
    pub last_id: i64,
}

/// The bytes of the session's key.
pub open spec fn key_bytes(key: Option<[u8; 32]>) -> Option<Seq<u8>> {
    match key {
        Some(k) => Some(k@),
        None => None,
    }
}

impl View for Passwords {
    type V = PasswordTable;

    closed spec fn view(&self) -> PasswordTable {
        PasswordTable {
            key: key_bytes(self.key),
            rows: records::contents(self.rows@),
            last_id: self.last_id,
        }
    }
}

/// No credential has a number that is still to be given.
pub open spec fn numbered(t: PasswordTable) -> bool {
    forall|i: int| 0 <= i < t.rows.len() ==> (#[trigger] t.rows[i]).id <= t.last_id
}

/// No two credentials have the same number.
pub open spec fn distinct_ids(t: PasswordTable) -> bool {
    forall|i: int, j: int|
        0 <= i < j < t.rows.len() ==> (#[trigger] t.rows[i]).id != (#[trigger] t.rows[j]).id
}

/// Whether a credential is that of a user at an origin.
pub open spec fn belongs(r: Stored, origin: Seq<char>, username: Seq<char>) -> bool {
    r.origin == origin && r.username == username
}

/// Each user has one credential at an origin.
pub open spec fn one_per_user(t: PasswordTable) -> bool {
    forall|i: int, j: int|
        0 <= i < j < t.rows.len() ==> !belongs(
            #[trigger] t.rows[j],
            (#[trigger] t.rows[i]).origin,
            t.rows[i].username,
        )
}

/// Whether a user has a credential at an origin.
pub open spec fn known(t: PasswordTable, origin: Seq<char>, username: Seq<char>) -> bool {
    exists|i: int| 0 <= i < t.rows.len() && belongs(#[trigger] t.rows[i], origin, username)
}

/// A credential with a new password, counted as a use.
pub open spec fn renewed(
    r: Stored,
    origin: Seq<char>,
    username: Seq<char>,
    enc: Seq<char>,
    now: Seq<char>,
) -> Stored {
    if belongs(r, origin, username) {
        Stored {
            password_enc: enc,
            last_used: now,
            use_count: records::bumped(r.use_count),
            ..r
        }
    } else {
        r
    }
}

/// The store after a credential was saved, its password encrypted to `enc`.
pub open spec fn with_credential(
    t: PasswordTable,
    origin: Seq<char>,
    username: Seq<char>,
    enc: Seq<char>,
    now: Seq<char>,
) -> PasswordTable {
    if known(t, origin, username) {
        PasswordTable {
            rows: t.rows.map_values(|r: Stored| renewed(r, origin, username, enc, now)),
            ..t
        }
    } else {
        let id = (t.last_id + 1) as i64;
        PasswordTable {
            rows: t.rows.push(
                Stored {
                    id,
                    origin,
                    username,
                    password_enc: enc,
                    created: now,
                    last_used: now,
                    use_count: 0,
                },
            ),
            last_id: id,
            ..t
        }
    }
}

/// A credential with a new username and password, where it has the number.
pub open spec fn rewritten(r: Stored, id: i64, username: Seq<char>, enc: Seq<char>) -> Stored {
    if r.id == id {
        Stored { username, password_enc: enc, ..r }
    } else {
        r
    }
}

/// The store after a credential was rewritten.
pub open spec fn with_rewrite(
    t: PasswordTable,
    id: i64,
    username: Seq<char>,
    enc: Seq<char>,
) -> PasswordTable {
    PasswordTable { rows: t.rows.map_values(|r: Stored| rewritten(r, id, username, enc)), ..t }
}

/// Whether the credential with the number can take the username: no other
/// credential at its origin has it.
pub open spec fn username_free(t: PasswordTable, id: i64, username: Seq<char>) -> bool {
    forall|i: int, j: int|
        0 <= i < t.rows.len() && 0 <= j < t.rows.len() && i != j && (#[trigger] t.rows[i]).id == id
            ==> !belongs(#[trigger] t.rows[j], t.rows[i].origin, username)
}

/// A credential after one more use, where it has the number.
pub open spec fn used(r: Stored, id: i64, now: Seq<char>) -> Stored {
    if r.id == id {
        Stored { use_count: records::bumped(r.use_count), last_used: now, ..r }
    } else {
        r
    }
}

/// The store after a use of a credential.
pub open spec fn with_use(t: PasswordTable, id: i64, now: Seq<char>) -> PasswordTable {
    PasswordTable { rows: t.rows.map_values(|r: Stored| used(r, id, now)), ..t }
}

/// Having another number.
pub open spec fn other_id(id: i64) -> spec_fn(Stored) -> bool {
    |r: Stored| r.id != id
}

/// The store without a credential.
pub open spec fn without_id(t: PasswordTable, id: i64) -> PasswordTable {
    PasswordTable { rows: t.rows.filter(other_id(id)), ..t }
}

/// A stored credential with its password decrypted.
pub open spec fn opened(r: Stored, key: Option<Seq<u8>>) -> Saved {
    Saved {
        id: r.id,
        origin: r.origin,
        username: r.username,
        password: decrypted(key, r.password_enc),
        created: r.created,
        last_used: r.last_used,
        use_count: r.use_count,
    }
}

/// Stored credentials with their passwords decrypted.
pub open spec fn opened_all(rows: Seq<Stored>, key: Option<Seq<u8>>) -> Seq<Saved> {
    rows.map_values(|r: Stored| opened(r, key))
}

/// Being a credential at an origin.
pub open spec fn at_origin(origin: Seq<char>) -> spec_fn(Stored) -> bool {
    |r: Stored| r.origin == origin
}

/// The more often used credential first, then that used last.
pub open spec fn by_use() -> spec_fn(Stored, Stored) -> bool {
    |a: Stored, b: Stored|
        b.use_count < a.use_count || (!(a.use_count < b.use_count) && text::text_precedes(
            b.last_used,
            a.last_used,
        ))
}

/// By origin, then by username.
pub open spec fn by_name() -> spec_fn(Stored, Stored) -> bool {
    |a: Stored, b: Stored|
        text::text_precedes(a.origin, b.origin) || (!text::text_precedes(b.origin, a.origin)
            && text::text_precedes(a.username, b.username))
}

/// The credentials at an origin; none where the store is locked.
pub open spec fn found_at(t: PasswordTable, origin: Seq<char>) -> Seq<Saved> {
    if t.key is None {
        Seq::empty()
    } else {
        opened_all(sorting::sorted(t.rows.filter(at_origin(origin)), by_use()), t.key)
    }
}

/// All credentials; none where the store is locked.
pub open spec fn all_of(t: PasswordTable) -> Seq<Saved> {
    if t.key is None {
        Seq::empty()
    } else {
        opened_all(sorting::sorted(t.rows, by_name()), t.key)
    }
}

impl Passwords {
    /// An empty, locked store.
    pub fn new() -> (r: Self)
        ensures
            r@ == (PasswordTable { key: None, rows: Seq::empty(), last_id: 0 }),
            numbered(r@),
            distinct_ids(r@),
            one_per_user(r@),
    {
        let r = Passwords { key: None, rows: Vec::new(), last_id: 0 };
        assert(r@.rows =~= Seq::empty());
        r
    }

    /// A locked store with the given credentials, in the order in which they
    /// were made; `last_id` is the highest number known to have been given.
    pub fn with_entries(rows: Vec<StoredCredential>, last_id: i64) -> (r: Self)
        ensures
            r@.key is None,
            r@.rows == records::contents(rows@),
            numbered(r@),
            r@.last_id >= last_id,
            r@.last_id == last_id || exists|i: int|
                0 <= i < rows@.len() && (#[trigger] rows@[i]).id == r@.last_id,
    {
        let mut highest: i64 = last_id;
        let mut i: usize = 0;
        while i < rows.len()
            invariant
                i <= rows@.len(),
                highest >= last_id,
                forall|k: int| 0 <= k < i ==> (#[trigger] rows@[k]).id <= highest,
                highest == last_id || exists|k: int|
                    0 <= k < rows@.len() && (#[trigger] rows@[k]).id == highest,
            decreases rows@.len() - i,
        {
            if rows[i].id > highest {
                highest = rows[i].id;
            }
            i += 1;
        }
        Passwords { key: None, rows, last_id: highest }
    }

    /// The credentials as they are stored, in the order in which they were made.
    pub fn entries(&self) -> (r: &Vec<StoredCredential>)
        ensures
            records::contents(r@) == self@.rows,
    {
        &self.rows
    }

    /// Whether a number is left for a further credential.
    pub fn has_room(&self) -> (r: bool)
        ensures
            r == (self@.last_id < i64::MAX),
    {
        self.last_id < i64::MAX
    }

    /// Check whether the master password has been entered this session.
    pub fn is_unlocked(&self) -> (r: bool)
        ensures
            r == (self@.key is Some),
    {
        self.key.is_some()
    }

    /// Keep the derived key for this session.
    pub fn set_derived_key(&mut self, key: [u8; 32])
        ensures
            final(self)@ == (PasswordTable { key: Some(key@), ..old(self)@ }),
    {
        self.key = Some(key);
    }

    /// The derived key of this session. `None` if the store is locked.
    pub fn get_derived_key(&self) -> (r: Option<[u8; 32]>)
        ensures
            key_bytes(r) == self@.key,
    {
        self.key
    }
}

/// Decrypt a stored password. Empty on failure: the store is locked, the key
/// is wrong or the data corrupt.
pub fn decrypt_password(p: &Passwords, stored: &str) -> (r: String)
    ensures
        r@ == decrypted(p@.key, stored@),
{
    match p.key {
        Some(key) => decrypt_with(&key, stored),
        None => {
            let r = String::new();
            assert(r@ =~= Seq::empty());
            r
        },
    }
}

/// Encrypt a password under the session's key and a fresh random nonce.
pub fn encrypt_password(p: &Passwords, plaintext: &str) -> (r: String)
    requires
        p@.key is Some,
        vstd::utf8::encode_utf8(plaintext@).len() <= crypto::AES_MAX_LEN,
    ensures
        encrypts(p@.key, plaintext@, r@),
{
    match p.key {
        Some(key) => {
            let nonce = crypto::random_bytes(AES_NONCE_LEN);
            encrypt_password_with(plaintext, &key, nonce.as_slice())
        },
        None => {
            assert(false);
            String::new()
        },
    }
}

// The master password.

/// The known text that is encrypted to check the master password.
pub const VERIFY_PLAINTEXT: &'static str = "wynn-pw-ok";

/// The stored salt, encoded; empty where none is stored.
pub open spec fn stored_salt(s: Map<Seq<char>, Seq<char>>) -> Seq<char> {
    settings::value_or(s, "pw_salt"@, ""@)
}

/// The stored verification token, encoded; empty where none is stored.
pub open spec fn stored_token(s: Map<Seq<char>, Seq<char>>) -> Seq<char> {
    settings::value_or(s, "pw_verify"@, ""@)
}

/// Whether a master password has been configured.
pub open spec fn configured(s: Map<Seq<char>, Seq<char>>) -> bool {
    stored_salt(s).len() > 0 && stored_token(s).len() > 0
}

/// The key that a master password unlocks the store with: that derived from it
/// and the stored salt, where it opens the verification token. `None` where
/// the password is wrong, or nothing usable is stored.
pub open spec fn unlocking_key(s: Map<Seq<char>, Seq<char>>, master: Seq<u8>) -> Option<Seq<u8>> {
    match (encoding::decoded(stored_salt(s)), encoding::decoded(stored_token(s))) {
        (Some(salt), Some(token)) => {
            let key = crypto::argon2id(master, salt.take(ARGON2_SALT_LEN as int));
            if configured(s) && salt.len() >= ARGON2_SALT_LEN && unsealed(token, key) == Some(
                vstd::utf8::encode_utf8(VERIFY_PLAINTEXT@),
            ) {
                Some(key)
            } else {
                None
            }
        },
        _ => None,
    }
}

/// Check whether a master password has been configured.
pub fn has_master_password(s: &Settings) -> (r: bool)
    ensures
        r == configured(s@),
{
    let salt = settings::setting_or(s, "pw_salt", "");
    let token = settings::setting_or(s, "pw_verify", "");
    !salt.as_str().is_empty() && !token.as_str().is_empty()
}

fn same_bytes(a: &[u8], b: &[u8]) -> (r: bool)
    ensures
        r == (a@ == b@),
{
    if a.len() != b.len() {
        return false;
    }
    let mut i: usize = 0;
    while i < a.len()
        invariant
            a@.len() == b@.len(),
            i <= a@.len(),
            forall|k: int| 0 <= k < i ==> a@[k] == b@[k],
        decreases a@.len() - i,
    {
        if a[i] != b[i] {
            return false;
        }
        i += 1;
    }
    assert(a@ =~= b@);
    true
}

/// Attempt to unlock with a master password. Returns `true` on success.
pub fn try_unlock(p: &mut Passwords, s: &Settings, master_password: &str) -> (r: bool)
    requires
        vstd::utf8::encode_utf8(master_password@).len() <= crypto::ARGON2_MAX_LEN,
    ensures
        r == (unlocking_key(s@, vstd::utf8::encode_utf8(master_password@)) is Some),
        r ==> final(p)@ == (PasswordTable {
            key: unlocking_key(s@, vstd::utf8::encode_utf8(master_password@)),
            ..old(p)@
        }),
        !r ==> final(p)@ == old(p)@,
{
    let salt_b64 = settings::setting_or(s, "pw_salt", "");
    let token_b64 = settings::setting_or(s, "pw_verify", "");
    if salt_b64.as_str().is_empty() || token_b64.as_str().is_empty() {
        return false;
    }
    let salt = match encoding::base64_decode(salt_b64.as_str()) {
        Some(salt) => salt,
        None => {
            return false;
        },
    };
    if salt.len() < ARGON2_SALT_LEN {
        return false;
    }
    let short = vstd::slice::slice_subrange(salt.as_slice(), 0, ARGON2_SALT_LEN);
    assert(short@ =~= salt@.take(ARGON2_SALT_LEN as int));
    let key = derive_key(master_password, short);
    if let Some(data) = encoding::base64_decode(token_b64.as_str()) {
        if let Some(plaintext) = aes_decrypt(data.as_slice(), &key) {
            if same_bytes(plaintext.as_slice(), VERIFY_PLAINTEXT.as_bytes()) {
                p.set_derived_key(key);
                return true;
            }
        }
    }
    false
}

/// The settings after a master password was set up with a salt and a nonce.
pub open spec fn with_master(
    s: Map<Seq<char>, Seq<char>>,
    master: Seq<u8>,
    salt: Seq<u8>,
    nonce: Seq<u8>,
) -> Map<Seq<char>, Seq<char>> {
    s.insert("pw_salt"@, encoding::encoded(salt)).insert(
        "pw_verify"@,
        encryption(crypto::argon2id(master, salt), nonce, VERIFY_PLAINTEXT@),
    )
}

/// Set up a new master password with the given salt and nonce: store the salt
/// and the encrypted verification token, and unlock the store.
pub fn setup_master_password_with(
    p: &mut Passwords,
    s: &mut Settings,
    master_password: &str,
    salt: &[u8],
    nonce: &[u8],
)
    requires
        vstd::utf8::encode_utf8(master_password@).len() <= crypto::ARGON2_MAX_LEN,
        salt@.len() == ARGON2_SALT_LEN,
        nonce@.len() == AES_NONCE_LEN,
    ensures
        final(p)@ == (PasswordTable {
            key: Some(crypto::argon2id(vstd::utf8::encode_utf8(master_password@), salt@)),
            ..old(p)@
        }),
        final(s)@ == with_master(
            old(s)@,
            vstd::utf8::encode_utf8(master_password@),
            salt@,
            nonce@,
        ),
        configured(final(s)@),
        unlocking_key(final(s)@, vstd::utf8::encode_utf8(master_password@)) == final(p)@.key,
{
    let key = derive_key(master_password, salt);
    proof {
        reveal_strlit("wynn-pw-ok");
        vstd::utf8::is_ascii_chars_encode_utf8(VERIFY_PLAINTEXT@);
    }
    let token = aes_encrypt_with(VERIFY_PLAINTEXT.as_bytes(), &key, nonce);
    let salt_b64 = encoding::base64_encode(salt);
    let token_b64 = encoding::base64_encode(token.as_slice());
    settings::set_setting(s, "pw_salt", salt_b64.as_str());
    settings::set_setting(s, "pw_verify", token_b64.as_str());
    p.set_derived_key(key);
    proof {
        reveal_strlit("pw_salt");
        reveal_strlit("pw_verify");
        assert("pw_salt"@.len() != "pw_verify"@.len());
        encoding::law_decode_inverts_encode(salt@);
        encoding::law_decode_inverts_encode(token@);
        encoding::law_encoded_length(salt@);
        encoding::law_encoded_length(token@);
        assert(salt@.take(ARGON2_SALT_LEN as int) =~= salt@);
    }
}

/// Set up a new master password: generate a salt, derive the key, encrypt the
/// verification token, and store salt and token.
pub fn setup_master_password(p: &mut Passwords, s: &mut Settings, master_password: &str)
    requires
        vstd::utf8::encode_utf8(master_password@).len() <= crypto::ARGON2_MAX_LEN,
    ensures
        exists|salt: Seq<u8>, nonce: Seq<u8>|
            {
                &&& salt.len() == ARGON2_SALT_LEN
                &&& nonce.len() == AES_NONCE_LEN
                &&& final(p)@ == (PasswordTable {
                    key: Some(crypto::argon2id(vstd::utf8::encode_utf8(master_password@), salt)),
                    ..old(p)@
                })
                &&& final(s)@ == #[trigger] with_master(
                    old(s)@,
                    vstd::utf8::encode_utf8(master_password@),
                    salt,
                    nonce,
                )
            },
        configured(final(s)@),
        unlocking_key(final(s)@, vstd::utf8::encode_utf8(master_password@)) == final(p)@.key,
{
    let salt = crypto::random_bytes(ARGON2_SALT_LEN);
    let nonce = crypto::random_bytes(AES_NONCE_LEN);
    setup_master_password_with(p, s, master_password, salt.as_slice(), nonce.as_slice());
}

/// What the store asks of the user before it can be used.
#[derive(Clone, Copy, PartialEq, Eq, Structural)]
pub enum UnlockStep {
    /// Nothing: it is unlocked.
    Ready,
    /// The master password.
    Enter,
    /// A new master password.
    SetUp,
}

/// What is needed before the store can be used.
pub fn ensure_unlocked(p: &Passwords, s: &Settings) -> (r: UnlockStep)
    ensures
        r == if p@.key is Some {
            UnlockStep::Ready
        } else if configured(s@) {
            UnlockStep::Enter
        } else {
            UnlockStep::SetUp
        },
{
    if p.is_unlocked() {
        UnlockStep::Ready
    } else if has_master_password(s) {
        UnlockStep::Enter
    } else {
        UnlockStep::SetUp
    }
}

/// What becomes of an answer to the unlock dialog.
#[derive(Clone, Copy, PartialEq, Eq, Structural)]
pub enum UnlockAnswer {
    /// Nothing was entered, or the dialog was cancelled.
    Ignored,
    /// The store is unlocked.
    Unlocked,
    /// The password is wrong; the dialog is shown again.
    Wrong,
}

/// Handles an answer to the unlock dialog.
pub fn answer_unlock(p: &mut Passwords, s: &Settings, response: &str, master: &str) -> (r:
    UnlockAnswer)
    requires
        response@ == "unlock"@ ==> vstd::utf8::encode_utf8(master@).len() <= crypto::ARGON2_MAX_LEN,
    ensures
        r == if response@ != "unlock"@ || master@.len() == 0 {
            UnlockAnswer::Ignored
        } else if unlocking_key(s@, vstd::utf8::encode_utf8(master@)) is Some {
            UnlockAnswer::Unlocked
        } else {
            UnlockAnswer::Wrong
        },
        r is Unlocked ==> final(p)@ == (PasswordTable {
            key: unlocking_key(s@, vstd::utf8::encode_utf8(master@)),
            ..old(p)@
        }),
        !(r is Unlocked) ==> final(p)@ == old(p)@,
{
    if !text::same(response, "unlock") || master.is_empty() {
        UnlockAnswer::Ignored
    } else if try_unlock(p, s, master) {
        UnlockAnswer::Unlocked
    } else {
        UnlockAnswer::Wrong
    }
}

/// The fewest characters of a new master password.
pub const MASTER_MIN_LEN: usize = 6;

/// What is wrong with a new master password, if anything: it is empty, too
/// short, or not the same as its confirmation.
pub open spec fn master_flaw(master: Seq<char>, confirm: Seq<char>) -> Option<Seq<char>> {
    if master.len() == 0 {
        Some("Password cannot be empty."@)
    } else if master.len() < MASTER_MIN_LEN {
        Some("Password must be at least 6 characters."@)
    } else if master != confirm {
        Some("Passwords do not match."@)
    } else {
        None
    }
}

/// Checks a new master password against its confirmation.
pub fn check_new_master(master: &str, confirm: &str) -> (r: Option<&'static str>)
    ensures
        match r {
            Some(flaw) => master_flaw(master@, confirm@) == Some(flaw@),
            None => master_flaw(master@, confirm@) is None,
        },
{
    let chars = text::chars_of(master);
    if chars.len() == 0 {
        Some("Password cannot be empty.")
    } else if chars.len() < MASTER_MIN_LEN {
        Some("Password must be at least 6 characters.")
    } else if !text::same(master, confirm) {
        Some("Passwords do not match.")
    } else {
        None
    }
}

// Origins.

/// Whether a character ends the host of an address.
pub open spec fn ends_host(c: char) -> bool {
    c == '/' || c == '?' || c == '#'
}

/// How long the host at the start of `s` is.
pub open spec fn host_len(s: Seq<char>) -> int
    decreases s.len(),
{
    if s.len() == 0 || ends_host(s[0]) {
        0
    } else {
        1 + host_len(s.drop_first())
    }
}

/// The origin (scheme and host) of an address: what stands before the path,
/// the query or the fragment. An address without a scheme is its own origin.
pub open spec fn origin_of(url: Seq<char>) -> Seq<char> {
    match text::position(url, "://"@) {
        Some(i) => url.take(i + 3 + host_len(url.skip(i + 3))),
        None => url,
    }
}

/// Extract the origin (scheme + host) from a URL.
pub fn extract_origin(url: &str) -> (r: String)
    ensures
        r@ == origin_of(url@),
{
    let v = text::chars_of(url);
    let separator = text::chars_of("://");
    proof {
        reveal_strlit("://");
        text::lemma_position(url@, "://"@);
    }
    let start: usize = match text::find(v.as_slice(), separator.as_slice()) {
        Some(i) => {
            assert(text::occurs_at(url@, "://"@, i as int));
            assert("://"@.len() == 3 && v.len() == url@.len());
            i + 3
        },
        None => {
            return url.to_owned();
        },
    };
    let mut end: usize = start;
    while end < v.len() && v[end] != '/' && v[end] != '?' && v[end] != '#'
        invariant
            v@ == url@,
            start <= end <= v@.len(),
            host_len(url@.skip(start as int)) == end - start + host_len(url@.skip(end as int)),
        decreases v@.len() - end,
    {
        assert(url@.skip(end as int).drop_first() =~= url@.skip(end + 1));
        end += 1;
    }
    let r = text::string_between(v.as_slice(), 0, end);
    assert(r@ =~= url@.take(end as int));
    r
}

// Saving, finding and removing credentials.

fn is_known(rows: &Vec<StoredCredential>, origin: &str, username: &str) -> (r: bool)
    ensures
        r == exists|i: int|
            0 <= i < rows@.len() && belongs(#[trigger] records::contents(rows@)[i], origin@, username@),
{
    let ghost items = records::contents(rows@);
    let mut i: usize = 0;
    while i < rows.len()
        invariant
            items == records::contents(rows@),
            i <= rows@.len(),
            forall|k: int| 0 <= k < i ==> !belongs(#[trigger] items[k], origin@, username@),
        decreases rows@.len() - i,
    {
        assert(items[i as int] == rows@[i as int]@);
        if text::same(rows[i].origin.as_str(), origin) && text::same(
            rows[i].username.as_str(),
            username,
        ) {
            assert(belongs(items[i as int], origin@, username@));
            return true;
        }
        i += 1;
    }
    false
}

/// Save a credential whose password has been encrypted to `enc`. If one exists
/// for the origin and username, its password is replaced and the use counted.
pub fn store_credential(
    p: &mut Passwords,
    origin: &str,
    username: &str,
    enc: &str,
    now: &str,
)
    requires
        known(old(p)@, origin@, username@) || old(p)@.last_id < i64::MAX,
    ensures
        final(p)@ == with_credential(old(p)@, origin@, username@, enc@, now@),
{
    let ghost start = p@;
    if is_known(&p.rows, origin, username) {
        let mut rows: Vec<StoredCredential> = Vec::new();
        let ghost f = |r: Stored| renewed(r, origin@, username@, enc@, now@);
        let ghost wanted = start.rows.map_values(f);
        let mut i: usize = 0;
        assert(records::contents(rows@) =~= wanted.take(0));
        while i < p.rows.len()
            invariant
                start == p@,
                start.rows == records::contents(p.rows@),
                f == (|r: Stored| renewed(r, origin@, username@, enc@, now@)),
                wanted == start.rows.map_values(f),
                i <= p.rows@.len(),
                records::contents(rows@) == wanted.take(i as int),
            decreases p.rows@.len() - i,
        {
            let mut row = p.rows[i].copied();
            assert(row@ == start.rows[i as int]);
            if text::same(row.origin.as_str(), origin) && text::same(row.username.as_str(), username) {
                row.password_enc = enc.to_owned();
                row.last_used = now.to_owned();
                row.use_count = records::bump(row.use_count);
            }
            assert(row@ =~= wanted[i as int]);
            let ghost before = rows@;
            rows.push(row);
            assert(records::contents(rows@) =~= records::contents(before).push(wanted[i as int]));
            assert(records::contents(rows@) =~= wanted.take(i + 1));
            i += 1;
        }
        p.rows = rows;
        assert(wanted.take(i as int) =~= wanted);
        assert(p@.rows =~= wanted);
        return;
    }
    let id: i64 = p.last_id + 1;
    let row = StoredCredential {
        id,
        origin: origin.to_owned(),
        username: username.to_owned(),
        password_enc: enc.to_owned(),
        created: now.to_owned(),
        last_used: now.to_owned(),
        use_count: 0,
    };
    let ghost made = row@;
    p.rows.push(row);
    p.last_id = id;
    assert(p@.rows =~= start.rows.push(made));
}

/// Save a credential. If one already exists for the origin and username,
/// update its password instead. The store has to be unlocked.
pub fn save_credential(
    p: &mut Passwords,
    origin: &str,
    username: &str,
    password: &str,
    now: &str,
)
    requires
        old(p)@.key is Some,
        known(old(p)@, origin@, username@) || old(p)@.last_id < i64::MAX,
        vstd::utf8::encode_utf8(password@).len() <= crypto::AES_MAX_LEN,
    ensures
        exists|enc: Seq<char>|
            encrypts(old(p)@.key, password@, enc) && final(p)@ == #[trigger] with_credential(
                old(p)@,
                origin@,
                username@,
                enc,
                now@,
            ),
{
    let enc = encrypt_password(p, password);
    store_credential(p, origin, username, enc.as_str(), now);
}

/// Whether the credential with the number can take the username.
pub fn is_username_free(p: &Passwords, id: i64, username: &str) -> (r: bool)
    ensures
        r == username_free(p@, id, username@),
{
    let mut i: usize = 0;
    while i < p.rows.len()
        invariant
            i <= p.rows@.len(),
            p@.rows == records::contents(p.rows@),
            forall|a: int, b: int|
                0 <= a < i && 0 <= b < p@.rows.len() && a != b && (#[trigger] p@.rows[a]).id == id
                    ==> !belongs(#[trigger] p@.rows[b], p@.rows[a].origin, username@),
        decreases p.rows@.len() - i,
    {
        assert(p@.rows[i as int] == p.rows@[i as int]@);
        if p.rows[i].id == id {
            let mut j: usize = 0;
            while j < p.rows.len()
                invariant
                    i < p.rows@.len(),
                    j <= p.rows@.len(),
                    p@.rows == records::contents(p.rows@),
                    p.rows@[i as int].id == id,
                    forall|b: int|
                        0 <= b < j && i != b ==> !belongs(
                            #[trigger] p@.rows[b],
                            p@.rows[i as int].origin,
                            username@,
                        ),
                decreases p.rows@.len() - j,
            {
                if i != j && text::same(p.rows[j].origin.as_str(), p.rows[i].origin.as_str())
                    && text::same(p.rows[j].username.as_str(), username) {
                    assert(p@.rows[i as int].id == id);
                    assert(belongs(p@.rows[j as int], p@.rows[i as int].origin, username@));
                    return false;
                }
                j += 1;
            }
        }
        i += 1;
    }
    true
}

/// Rewrite the credential with the number: a new username, and a password that
/// has been encrypted to `enc`.
pub fn rewrite_credential(p: &mut Passwords, id: i64, username: &str, enc: &str)
    requires
        username_free(old(p)@, id, username@),
    ensures
        final(p)@ == with_rewrite(old(p)@, id, username@, enc@),
{
    let ghost start = p@;
    let mut rows: Vec<StoredCredential> = Vec::new();
    let ghost f = |r: Stored| rewritten(r, id, username@, enc@);
    let ghost wanted = start.rows.map_values(f);
    let mut i: usize = 0;
    assert(records::contents(rows@) =~= wanted.take(0));
    while i < p.rows.len()
        invariant
            start == p@,
            start.rows == records::contents(p.rows@),
            f == (|r: Stored| rewritten(r, id, username@, enc@)),
            wanted == start.rows.map_values(f),
            i <= p.rows@.len(),
            records::contents(rows@) == wanted.take(i as int),
        decreases p.rows@.len() - i,
    {
        let mut row = p.rows[i].copied();
        assert(row@ == start.rows[i as int]);
        if row.id == id {
            row.username = username.to_owned();
            row.password_enc = enc.to_owned();
        }
        assert(row@ =~= wanted[i as int]);
        let ghost before = rows@;
        rows.push(row);
        assert(records::contents(rows@) =~= records::contents(before).push(wanted[i as int]));
        assert(records::contents(rows@) =~= wanted.take(i + 1));
        i += 1;
    }
    p.rows = rows;
    assert(wanted.take(i as int) =~= wanted);
    assert(p@.rows =~= wanted);
}

/// Update a credential's username and password. A locked store is left as it is.
pub fn update_credential(p: &mut Passwords, id: i64, username: &str, password: &str)
    requires
        old(p)@.key is Some ==> username_free(old(p)@, id, username@) && vstd::utf8::encode_utf8(
            password@,
        ).len() <= crypto::AES_MAX_LEN,
    ensures
        old(p)@.key is None ==> final(p)@ == old(p)@,
        old(p)@.key is Some ==> exists|enc: Seq<char>|
            encrypts(old(p)@.key, password@, enc) && final(p)@ == #[trigger] with_rewrite(
                old(p)@,
                id,
                username@,
                enc,
            ),
{
    if !p.is_unlocked() {
        return;
    }
    let enc = encrypt_password(p, password);
    rewrite_credential(p, id, username, enc.as_str());
}

/// Delete a credential by its number.
pub fn delete_credential(p: &mut Passwords, id: i64)
    ensures
        final(p)@ == without_id(old(p)@, id),
{
    let ghost items = p@.rows;
    let ghost f = other_id(id);
    let mut rows: Vec<StoredCredential> = Vec::new();
    let mut i: usize = 0;
    assert(records::contents(rows@) =~= items.take(0).filter(f)) by {
        reveal(Seq::filter);
    }
    while i < p.rows.len()
        invariant
            items == records::contents(p.rows@),
            f == other_id(id),
            i <= p.rows@.len(),
            records::contents(rows@) == items.take(i as int).filter(f),
        decreases p.rows@.len() - i,
    {
        proof {
            reveal(Seq::filter);
            assert(items.take(i + 1).drop_last() =~= items.take(i as int));
            assert(items[i as int] == p.rows@[i as int]@);
        }
        if p.rows[i].id != id {
            let ghost before = rows@;
            rows.push(p.rows[i].copied());
            assert(records::contents(rows@) =~= records::contents(before).push(items[i as int]));
        }
        i += 1;
    }
    assert(items.take(i as int) =~= items);
    p.rows = rows;
}

/// Record a credential use (bump use_count and last_used).
pub fn record_use(p: &mut Passwords, id: i64, now: &str)
    ensures
        final(p)@ == with_use(old(p)@, id, now@),
{
    let ghost start = p@;
    let mut rows: Vec<StoredCredential> = Vec::new();
    let ghost f = |r: Stored| used(r, id, now@);
    let ghost wanted = start.rows.map_values(f);
    let mut i: usize = 0;
    assert(records::contents(rows@) =~= wanted.take(0));
    while i < p.rows.len()
        invariant
            start == p@,
            start.rows == records::contents(p.rows@),
            f == (|r: Stored| used(r, id, now@)),
            wanted == start.rows.map_values(f),
            i <= p.rows@.len(),
            records::contents(rows@) == wanted.take(i as int),
        decreases p.rows@.len() - i,
    {
        let mut row = p.rows[i].copied();
        assert(row@ == start.rows[i as int]);
        if row.id == id {
            row.use_count = records::bump(row.use_count);
            row.last_used = now.to_owned();
        }
        assert(row@ =~= wanted[i as int]);
        let ghost before = rows@;
        rows.push(row);
        assert(records::contents(rows@) =~= records::contents(before).push(wanted[i as int]));
        assert(records::contents(rows@) =~= wanted.take(i + 1));
        i += 1;
    }
    p.rows = rows;
    assert(wanted.take(i as int) =~= wanted);
    assert(p@.rows =~= wanted);
}

fn open_row(row: &StoredCredential, key: &[u8; 32]) -> (r: SavedCredential)
    ensures
        r@ == opened(row@, Some(key@)),
{
    SavedCredential {
        id: row.id,
        origin: row.origin.clone(),
        username: row.username.clone(),
        password: decrypt_with(key, row.password_enc.as_str()),
        created: row.created.clone(),
        last_used: row.last_used.clone(),
        use_count: row.use_count,
    }
}

fn open_rows(rows: &Vec<StoredCredential>, key: &[u8; 32]) -> (r: Vec<SavedCredential>)
    ensures
        records::contents(r@) == opened_all(records::contents(rows@), Some(key@)),
{
    let mut r: Vec<SavedCredential> = Vec::new();
    let ghost wanted = opened_all(records::contents(rows@), Some(key@));
    let mut i: usize = 0;
    assert(records::contents(r@) =~= wanted.take(0));
    while i < rows.len()
        invariant
            wanted == opened_all(records::contents(rows@), Some(key@)),
            i <= rows@.len(),
            records::contents(r@) == wanted.take(i as int),
        decreases rows@.len() - i,
    {
        let ghost before = r@;
        r.push(open_row(&rows[i], key));
        assert(records::contents(r@) =~= records::contents(before).push(wanted[i as int]));
        assert(records::contents(r@) =~= wanted.take(i + 1));
        i += 1;
    }
    assert(wanted.take(i as int) =~= wanted);
    r
}

/// Look up all saved credentials for a given origin, the most used first.
/// Empty if the store is locked.
pub fn lookup_credentials(p: &Passwords, origin: &str) -> (r: Vec<SavedCredential>)
    ensures
        records::contents(r@) == found_at(p@, origin@),
{
    let key = match p.key {
        Some(key) => key,
        None => {
            let r: Vec<SavedCredential> = Vec::new();
            assert(records::contents(r@) =~= Seq::empty());
            return r;
        },
    };
    let ghost items = p@.rows;
    let ghost f = at_origin(origin@);
    let mut here: Vec<StoredCredential> = Vec::new();
    let mut keys: Vec<sorting::Descending<sorting::Then<i64, String>>> = Vec::new();
    let mut i: usize = 0;
    assert(records::contents(here@) =~= items.take(0).filter(f)) by {
        reveal(Seq::filter);
    }
    while i < p.rows.len()
        invariant
            items == records::contents(p.rows@),
            f == at_origin(origin@),
            i <= p.rows@.len(),
            records::contents(here@) == items.take(i as int).filter(f),
            keys@.len() == here@.len(),
            forall|k: int|
                0 <= k < keys@.len() ==> (#[trigger] keys@[k]).0.0 == here@[k]@.use_count
                    && keys@[k].0.1@ == here@[k]@.last_used,
        decreases p.rows@.len() - i,
    {
        proof {
            reveal(Seq::filter);
            assert(items.take(i + 1).drop_last() =~= items.take(i as int));
            assert(items[i as int] == p.rows@[i as int]@);
        }
        if text::same(p.rows[i].origin.as_str(), origin) {
            let ghost before = here@;
            here.push(p.rows[i].copied());
            keys.push(
                sorting::Descending(
                    sorting::Then(p.rows[i].use_count, p.rows[i].last_used.clone()),
                ),
            );
            assert(records::contents(here@) =~= records::contents(before).push(items[i as int]));
        }
        i += 1;
    }
    assert(items.take(i as int) =~= items);
    let order = sorting::order_by(&keys);
    proof {
        sorting::lemma_picked_is_sorted(records::contents(here@), by_use(), keys@, order@);
    }
    let sorted = records::pick(&here, &order);
    open_rows(&sorted, &key)
}

/// Return all saved credentials (for the management dialog). Empty if the
/// store is locked.
pub fn all_credentials(p: &Passwords) -> (r: Vec<SavedCredential>)
    ensures
        records::contents(r@) == all_of(p@),
{
    let key = match p.key {
        Some(key) => key,
        None => {
            let r: Vec<SavedCredential> = Vec::new();
            assert(records::contents(r@) =~= Seq::empty());
            return r;
        },
    };
    let ghost items = p@.rows;
    let mut keys: Vec<sorting::Then<String, String>> = Vec::new();
    let mut i: usize = 0;
    while i < p.rows.len()
        invariant
            items == records::contents(p.rows@),
            i <= p.rows@.len(),
            keys@.len() == i,
            forall|k: int|
                0 <= k < i ==> (#[trigger] keys@[k]).0@ == items[k].origin && keys@[k].1@
                    == items[k].username,
        decreases p.rows@.len() - i,
    {
        keys.push(sorting::Then(p.rows[i].origin.clone(), p.rows[i].username.clone()));
        i += 1;
    }
    let order = sorting::order_by(&keys);
    proof {
        sorting::lemma_picked_is_sorted(items, by_name(), keys@, order@);
    }
    let sorted = records::pick(&p.rows, &order);
    open_rows(&sorted, &key)
}

// Credentials and marks.

/// The username under which an origin is marked as never to be asked for.
pub const NEVER_MARKER: &'static str = "\u{0}never\u{0}";

/// Being a credential, not a mark that an origin is never to be asked for.
pub open spec fn listable() -> spec_fn(Saved) -> bool {
    |c: Saved| c.username != NEVER_MARKER@
}

/// The credentials that can be filled in at an origin, in the order in which
/// they are found.
pub open spec fn logins_at(t: PasswordTable, origin: Seq<char>) -> Seq<Saved> {
    found_at(t, origin).filter(listable())
}

fn without_marks(all: &Vec<SavedCredential>) -> (r: Vec<SavedCredential>)
    ensures
        records::contents(r@) == records::contents(all@).filter(listable()),
{
    let ghost items = records::contents(all@);
    let ghost f = listable();
    let mut r: Vec<SavedCredential> = Vec::new();
    let mut i: usize = 0;
    assert(records::contents(r@) =~= items.take(0).filter(f)) by {
        reveal(Seq::filter);
    }
    while i < all.len()
        invariant
            items == records::contents(all@),
            f == listable(),
            i <= all@.len(),
            records::contents(r@) == items.take(i as int).filter(f),
        decreases all@.len() - i,
    {
        proof {
            reveal(Seq::filter);
            assert(items.take(i + 1).drop_last() =~= items.take(i as int));
            assert(items[i as int] == all@[i as int]@);
        }
        if !text::same(all[i].username.as_str(), NEVER_MARKER) {
            let ghost before = r@;
            r.push(all[i].copied());
            assert(records::contents(r@) =~= records::contents(before).push(items[i as int]));
        }
        i += 1;
    }
    assert(items.take(i as int) =~= items);
    r
}

/// Find the credentials that can be filled in at an origin.
pub fn find_logins(p: &Passwords, origin: &str) -> (r: Vec<SavedCredential>)
    ensures
        records::contents(r@) == logins_at(p@, origin@),
{
    let all = lookup_credentials(p, origin);
    without_marks(&all)
}

// Filling credentials into pages.

/// The fill script up to the username.
pub const FILL_HEAD: &'static str = r#"(function() {
    'use strict';
    function fill() {
        var pwFields = document.querySelectorAll('input[type="password"]');
        if (pwFields.length === 0) return false;
        pwFields.forEach(function(pw) {
            var form = pw.closest('form') || document.body;
            var inputs = form.querySelectorAll(
                'input[type="text"], input[type="email"], input[type="tel"], input:not([type])'
            );
            var userField = null;
            for (var i = 0; i < inputs.length; i++) {
                if (inputs[i].compareDocumentPosition(pw) & 4) {
                    userField = inputs[i];
                }
            }
            if (userField) {
                var nativeSet = Object.getOwnPropertyDescriptor(
                    HTMLInputElement.prototype, 'value'
                ).set;
                nativeSet.call(userField, '"#;

/// The fill script between the username and the password.
pub const FILL_MIDDLE: &'static str = r#"');
                userField.dispatchEvent(new Event('input', {bubbles: true}));
                userField.dispatchEvent(new Event('change', {bubbles: true}));
            }
            var nativeSet = Object.getOwnPropertyDescriptor(
                HTMLInputElement.prototype, 'value'
            ).set;
            nativeSet.call(pw, '"#;

/// The fill script behind the password.
pub const FILL_TAIL: &'static str = r#"');
            pw.dispatchEvent(new Event('input', {bubbles: true}));
            pw.dispatchEvent(new Event('change', {bubbles: true}));
        });
        return true;
    }
    if (!fill()) {
        setTimeout(fill, 800);
        setTimeout(fill, 2000);
    }
})();"#;

/// The script that fills a username and a password into login forms.
pub open spec fn fill_script(username: Seq<char>, password: Seq<char>) -> Seq<char> {
    FILL_HEAD@ + script::quoted_lines(username) + FILL_MIDDLE@ + script::quoted_lines(password)
        + FILL_TAIL@
}

/// Generate JavaScript that fills saved credentials into login forms: those
/// used most. `None` if the store is locked or has none for this origin.
pub fn autofill_js(p: &Passwords, origin: &str) -> (r: Option<String>)
    ensures
        match r {
            Some(js) => logins_at(p@, origin@).len() > 0 && js@ == fill_script(
                logins_at(p@, origin@)[0].username,
                logins_at(p@, origin@)[0].password,
            ),
            None => logins_at(p@, origin@).len() == 0,
        },
{
    let creds = find_logins(p, origin);
    if creds.len() == 0 {
        return None;
    }
    assert(creds@[0]@ == logins_at(p@, origin@)[0]);
    let username = script::quote_lines(creds[0].username.as_str());
    let password = script::quote_lines(creds[0].password.as_str());
    let mut js = FILL_HEAD.to_owned();
    js.append(username.as_str());
    js.append(FILL_MIDDLE);
    js.append(password.as_str());
    js.append(FILL_TAIL);
    Some(js)
}

// The prompt to save a password.

/// The number of the first credential with the username and password.
pub open spec fn saved_already(
    existing: Seq<Saved>,
    username: Seq<char>,
    password: Seq<char>,
) -> Option<i64>
    decreases existing.len(),
{
    if existing.len() == 0 {
        None
    } else {
        match saved_already(existing.drop_last(), username, password) {
            Some(id) => Some(id),
            None => if existing.last().username == username && existing.last().password == password {
                Some(existing.last().id)
            } else {
                None
            },
        }
    }
}

/// Whether one of the credentials has the username.
pub open spec fn has_username(existing: Seq<Saved>, username: Seq<char>) -> bool {
    exists|i: int| 0 <= i < existing.len() && (#[trigger] existing[i]).username == username
}

/// What is done about credentials that were typed into a page.
#[derive(Clone, Copy, PartialEq, Eq, Structural)]
pub enum SavePrompt {
    /// They are saved already; their use is counted.
    AlreadySaved(i64),
    /// The user is asked whether to save them, or to update the password.
    Ask {
        update: bool,
    },
}

/// Decides what is done about credentials that were typed into a page.
pub fn do_save_prompt(p: &Passwords, origin: &str, username: &str, password: &str) -> (r: SavePrompt)
    ensures
        r == match saved_already(found_at(p@, origin@), username@, password@) {
            Some(id) => SavePrompt::AlreadySaved(id),
            None => SavePrompt::Ask { update: has_username(found_at(p@, origin@), username@) },
        },
{
    let existing = lookup_credentials(p, origin);
    let ghost all = found_at(p@, origin@);
    let mut update = false;
    let mut i: usize = 0;
    while i < existing.len()
        invariant
            all == records::contents(existing@),
            all == found_at(p@, origin@),
            i <= existing@.len(),
            saved_already(all.take(i as int), username@, password@) is None,
            update == exists|k: int| 0 <= k < i && (#[trigger] all[k]).username == username@,
        decreases existing@.len() - i,
    {
        assert(all.take(i + 1).drop_last() =~= all.take(i as int));
        assert(all[i as int] == existing@[i as int]@);
        if text::same(existing[i].username.as_str(), username) {
            if text::same(existing[i].password.as_str(), password) {
                assert(saved_already(all.take(i + 1), username@, password@) == Some(all[i as int].id));
                proof {
                    lemma_saved_already_grows(all, username@, password@, i + 1);
                }
                return SavePrompt::AlreadySaved(existing[i].id);
            }
            assert(all[i as int].username == username@);
            update = true;
        }
        i += 1;
    }
    assert(all.take(i as int) =~= all);
    SavePrompt::Ask { update }
}

proof fn lemma_saved_already_grows(
    existing: Seq<Saved>,
    username: Seq<char>,
    password: Seq<char>,
    n: int,
)
    requires
        0 <= n <= existing.len(),
        saved_already(existing.take(n), username, password) is Some,
    ensures
        saved_already(existing, username, password) == saved_already(
            existing.take(n),
            username,
            password,
        ),
    decreases existing.len() - n,
{
    if n < existing.len() {
        assert(existing.take(n + 1).drop_last() =~= existing.take(n));
        lemma_saved_already_grows(existing, username, password, n + 1);
    } else {
        assert(existing.take(n) =~= existing);
    }
}

/// The heading of the save prompt.
pub open spec fn prompt_heading(update: bool) -> Seq<char> {
    if update {
        "Update password?"@
    } else {
        "Save password?"@
    }
}

/// The text of the save prompt.
pub open spec fn prompt_body(update: bool, origin: Seq<char>, username: Seq<char>) -> Seq<char> {
    "Would you like to "@ + (if update {
        "update"@
    } else {
        "save"@
    }) + " your password for "@ + origin + "?\n\nUsername: "@ + if username.len() == 0 {
        "(none)"@
    } else {
        username
    }
}

/// The label of the button that saves.
pub open spec fn prompt_accept(update: bool) -> Seq<char> {
    if update {
        "Update"@
    } else {
        "Save"@
    }
}

/// The texts of the save prompt.
pub struct PromptTexts {
    pub heading: String,
    pub body: String,
    pub accept: String,
}

/// The texts of the save prompt.
pub fn prompt_texts(update: bool, origin: &str, username: &str) -> (r: PromptTexts)
    ensures
        r.heading@ == prompt_heading(update),
        r.body@ == prompt_body(update, origin@, username@),
        r.accept@ == prompt_accept(update),
{
    let mut body = "Would you like to ".to_owned();
    body.append(
        if update {
            "update"
        } else {
            "save"
        },
    );
    body.append(" your password for ");
    body.append(origin);
    body.append("?\n\nUsername: ");
    body.append(
        if username.is_empty() {
            "(none)"
        } else {
            username
        },
    );
    PromptTexts {
        heading: (if update {
            "Update password?"
        } else {
            "Save password?"
        }).to_owned(),
        body,
        accept: (if update {
            "Update"
        } else {
            "Save"
        }).to_owned(),
    }
}

/// Handles an answer to the save prompt: save the credential, or mark the
/// origin as never to be asked for; any other answer changes nothing.
pub fn answer_save_prompt(
    p: &mut Passwords,
    response: &str,
    origin: &str,
    username: &str,
    password: &str,
    now: &str,
)
    requires
        old(p)@.key is Some && response@ == "save"@ ==> (known(old(p)@, origin@, username@) || old(
            p,
        )@.last_id < i64::MAX) && vstd::utf8::encode_utf8(password@).len() <= crypto::AES_MAX_LEN,
        old(p)@.key is Some && response@ == "never"@ ==> known(old(p)@, origin@, NEVER_MARKER@)
            || old(p)@.last_id < i64::MAX,
    ensures
        old(p)@.key is None || (response@ != "save"@ && response@ != "never"@) ==> final(p)@
            == old(p)@,
        old(p)@.key is Some && response@ == "save"@ ==> exists|enc: Seq<char>|
            encrypts(old(p)@.key, password@, enc) && final(p)@ == #[trigger] with_credential(
                old(p)@,
                origin@,
                username@,
                enc,
                now@,
            ),
        old(p)@.key is Some && response@ == "never"@ ==> exists|enc: Seq<char>|
            encrypts(old(p)@.key, ""@, enc) && final(p)@ == #[trigger] with_credential(
                old(p)@,
                origin@,
                NEVER_MARKER@,
                enc,
                now@,
            ),
{
    proof {
        reveal_strlit("save");
        reveal_strlit("never");
        assert("save"@.len() != "never"@.len());
        reveal_strlit("");
        assert(vstd::utf8::encode_utf8(""@).len() == 0);
    }
    if !p.is_unlocked() {
        return;
    }
    if text::same(response, "save") {
        save_credential(p, origin, username, password, now);
    } else if text::same(response, "never") {
        save_credential(p, origin, NEVER_MARKER, "", now);
    }
}

/// Check whether the user has opted out of saving passwords for this origin.
/// This works on a locked store too.
pub fn is_never_save(p: &Passwords, origin: &str) -> (r: bool)
    ensures
        r == known(p@, origin@, NEVER_MARKER@),
{
    let r = is_known(&p.rows, origin, NEVER_MARKER);
    assert(p@.rows == records::contents(p.rows@));
    r
}

/// Whether a credential is saved for the origin, be the store locked or not.
pub open spec fn saved_for(t: PasswordTable, origin: Seq<char>) -> bool {
    exists|i: int|
        0 <= i < t.rows.len() && (#[trigger] t.rows[i]).origin == origin && t.rows[i].username
            != NEVER_MARKER@
}

/// Whether a credential is saved for the origin. This works on a locked store
/// too.
pub fn has_credentials_for(p: &Passwords, origin: &str) -> (r: bool)
    ensures
        r == saved_for(p@, origin@),
{
    let mut i: usize = 0;
    while i < p.rows.len()
        invariant
            i <= p.rows@.len(),
            p@.rows == records::contents(p.rows@),
            forall|k: int|
                0 <= k < i ==> !((#[trigger] p@.rows[k]).origin == origin@ && p@.rows[k].username
                    != NEVER_MARKER@),
        decreases p.rows@.len() - i,
    {
        assert(p@.rows[i as int] == p.rows@[i as int]@);
        if text::same(p.rows[i].origin.as_str(), origin) && !text::same(
            p.rows[i].username.as_str(),
            NEVER_MARKER,
        ) {
            assert(p@.rows[i as int].origin == origin@);
            return true;
        }
        i += 1;
    }
    false
}

// The password management dialog.

/// The credentials that the management dialog lists.
pub fn list_for_dialog(p: &Passwords) -> (r: Vec<SavedCredential>)
    ensures
        records::contents(r@) == all_of(p@).filter(listable()),
{
    let all = all_credentials(p);
    without_marks(&all)
}

/// The most dots that stand for a password.
pub const MASK_LIMIT: usize = 20;

/// A dot for each byte of a password, up to a limit.
pub open spec fn masked(password: Seq<char>) -> Seq<char> {
    let n = vstd::utf8::encode_utf8(password).len();
    Seq::new(
        if n < MASK_LIMIT {
            n
        } else {
            MASK_LIMIT as nat
        },
        |i: int| '\u{2022}',
    )
}

/// What a row of the dialog shows after its reveal button is pressed.
pub struct RevealedRow {
    pub subtitle: String,
    pub icon: &'static str,
    pub tooltip: &'static str,
}

/// Toggles whether a row of the dialog shows, in dots, that it has a password.
pub fn toggle_reveal(showing: bool, username: &str, password: &str) -> (r: RevealedRow)
    ensures
        r.subtitle@ == if showing {
            username@
        } else {
            username@ + "\n"@ + masked(password@)
        },
        r.icon@ == if showing {
            "view-reveal-symbolic"@
        } else {
            "view-conceal-symbolic"@
        },
        r.tooltip@ == if showing {
            "Show password"@
        } else {
            "Hide password"@
        },
{
    if showing {
        RevealedRow {
            subtitle: username.to_owned(),
            icon: "view-reveal-symbolic",
            tooltip: "Show password",
        }
    } else {
        let mut n: usize = text::byte_len(password);
        if n > MASK_LIMIT {
            n = MASK_LIMIT;
        }
        let mut dots = String::new();
        let mut i: usize = 0;
        while i < n
            invariant
                i <= n,
                dots@.len() == i,
                forall|k: int| 0 <= k < i ==> dots@[k] == '\u{2022}',
            decreases n - i,
        {
            dots.push('\u{2022}');
            i += 1;
        }
        assert(dots@ =~= masked(password@));
        let mut subtitle = username.to_owned();
        subtitle.append("\n");
        subtitle.append(dots.as_str());
        RevealedRow { subtitle, icon: "view-conceal-symbolic", tooltip: "Hide password" }
    }
}

/// Whether a row stays visible under a search, all texts in lower case: the
/// query is empty, or the title or the subtitle holds it.
pub open spec fn passes(query: Seq<char>, title: Seq<char>, subtitle: Seq<char>) -> bool {
    query.len() == 0 || text::holds(title, query) || text::holds(subtitle, query)
}

/// Whether a row stays visible under a search, all texts in lower case.
pub fn passes_lowered(query: &str, title: &str, subtitle: &str) -> (r: bool)
    ensures
        r == passes(query@, title@, subtitle@),
{
    query.is_empty() || text::has(title, query) || text::has(subtitle, query)
}

/// Whether a row of the dialog stays visible under a search, whatever the case.
pub fn row_visible(query: &str, title: &str, subtitle: &str) -> (r: bool)
    ensures
        r == passes(
            text::lowercase(query@),
            text::lowercase(title@),
            text::lowercase(subtitle@),
        ),
{
    let q = text::to_lowercase(query);
    let t = text::to_lowercase(title);
    let u = text::to_lowercase(subtitle);
    passes_lowered(q.as_str(), t.as_str(), u.as_str())
}

// Laws.

proof fn lemma_filter_members(rows: Seq<Stored>, f: spec_fn(Stored) -> bool, x: Stored)
    ensures
        rows.filter(f).contains(x) <==> rows.contains(x) && f(x),
{
    broadcast use vstd::seq_lib::group_filter_ensures;

    let kept = rows.filter(f);
    if kept.contains(x) {
        rows.lemma_filter_contains_rev(f, x);
        let i = choose|i: int| 0 <= i < kept.len() && kept[i] == x;
        assert(f(kept[i]));
    }
    if rows.contains(x) && f(x) {
        let i = choose|i: int| 0 <= i < rows.len() && rows[i] == x;
        assert(kept.contains(rows[i]));
    }
}

/// What is dropped from a store stays out of it, and the rest keeps its order.
proof fn lemma_filter_keeps_invariants(t: PasswordTable, f: spec_fn(Stored) -> bool)
    requires
        numbered(t),
        distinct_ids(t),
        one_per_user(t),
    ensures
        numbered(PasswordTable { rows: t.rows.filter(f), ..t }),
        distinct_ids(PasswordTable { rows: t.rows.filter(f), ..t }),
        one_per_user(PasswordTable { rows: t.rows.filter(f), ..t }),
    decreases t.rows.len(),
{
    reveal(Seq::filter);
    if t.rows.len() > 0 {
        let last = t.rows.len() - 1;
        let shorter = PasswordTable { rows: t.rows.drop_last(), ..t };
        assert forall|i: int| 0 <= i < shorter.rows.len() implies (#[trigger] shorter.rows[i]).id
            <= shorter.last_id by {
            assert(t.rows[i].id <= t.last_id);
        }
        assert forall|i: int, j: int| 0 <= i < j < shorter.rows.len() implies (
        #[trigger] shorter.rows[i]).id != (#[trigger] shorter.rows[j]).id by {
            assert(t.rows[i].id != t.rows[j].id);
        }
        assert forall|i: int, j: int| 0 <= i < j < shorter.rows.len() implies !belongs(
            #[trigger] shorter.rows[j],
            (#[trigger] shorter.rows[i]).origin,
            shorter.rows[i].username,
        ) by {
            assert(!belongs(t.rows[j], t.rows[i].origin, t.rows[i].username));
        }
        lemma_filter_keeps_invariants(shorter, f);
        let kept = PasswordTable { rows: shorter.rows.filter(f), ..t };
        let now = PasswordTable { rows: t.rows.filter(f), ..t };
        assert(t.rows[last].id <= t.last_id);
        assert forall|i: int| 0 <= i < now.rows.len() implies (#[trigger] now.rows[i]).id
            <= now.last_id by {
            if i < kept.rows.len() {
                assert(kept.rows[i].id <= kept.last_id);
            }
        }
        assert forall|i: int, j: int| 0 <= i < j < now.rows.len() implies (#[trigger] now.rows[i]).id
            != (#[trigger] now.rows[j]).id && !belongs(
            now.rows[j],
            now.rows[i].origin,
            now.rows[i].username,
        ) by {
            if j < kept.rows.len() {
                assert(kept.rows[i].id != kept.rows[j].id);
                assert(!belongs(kept.rows[j], kept.rows[i].origin, kept.rows[i].username));
            } else {
                shorter.rows.lemma_filter_contains_rev(f, kept.rows[i]);
                let p = choose|p: int|
                    0 <= p < shorter.rows.len() && shorter.rows[p] == kept.rows[i];
                assert(t.rows[p].id != t.rows[last].id);
                assert(!belongs(t.rows[last], t.rows[p].origin, t.rows[p].username));
            }
        }
    } else {
        assert(t.rows.filter(f) =~= t.rows);
    }
}

/// Saving, rewriting, using and deleting credentials keep their numbers
/// distinct and below the highest given, and each user to one credential at an
/// origin.
pub proof fn law_credentials_keep_invariants(
    t: PasswordTable,
    origin: Seq<char>,
    username: Seq<char>,
    enc: Seq<char>,
    now: Seq<char>,
    id: i64,
)
    requires
        numbered(t),
        distinct_ids(t),
        one_per_user(t),
        t.last_id < i64::MAX,
    ensures
        numbered(with_credential(t, origin, username, enc, now)),
        distinct_ids(with_credential(t, origin, username, enc, now)),
        one_per_user(with_credential(t, origin, username, enc, now)),
        numbered(with_use(t, id, now)),
        distinct_ids(with_use(t, id, now)),
        one_per_user(with_use(t, id, now)),
        numbered(without_id(t, id)),
        distinct_ids(without_id(t, id)),
        one_per_user(without_id(t, id)),
        numbered(with_rewrite(t, id, username, enc)),
        distinct_ids(with_rewrite(t, id, username, enc)),
        username_free(t, id, username) ==> one_per_user(with_rewrite(t, id, username, enc)),
{
    lemma_filter_keeps_invariants(t, other_id(id));
    lemma_row_wise(t, with_use(t, id, now));
    let saved = with_credential(t, origin, username, enc, now);
    if known(t, origin, username) {
        lemma_row_wise(t, saved);
    } else {
        let n = t.rows.len() as int;
        assert forall|i: int| 0 <= i < saved.rows.len() implies (#[trigger] saved.rows[i]).id
            <= saved.last_id by {
            if i < n {
                assert(t.rows[i].id <= t.last_id);
            }
        }
        assert forall|i: int, j: int| 0 <= i < j < saved.rows.len() implies (
        #[trigger] saved.rows[i]).id != (#[trigger] saved.rows[j]).id && !belongs(
            saved.rows[j],
            saved.rows[i].origin,
            saved.rows[i].username,
        ) by {
            assert(saved.rows[i] == t.rows[i]);
            assert(t.rows[i].id <= t.last_id);
            if j < n {
                assert(t.rows[i].id != t.rows[j].id);
                assert(!belongs(t.rows[j], t.rows[i].origin, t.rows[i].username));
            } else {
                assert(!belongs(t.rows[i], origin, username));
            }
        }
    }
    let w = with_rewrite(t, id, username, enc);
    assert forall|i: int| 0 <= i < w.rows.len() implies (#[trigger] w.rows[i]).id <= w.last_id by {
        assert(t.rows[i].id <= t.last_id);
    }
    assert forall|i: int, j: int| 0 <= i < j < w.rows.len() implies (#[trigger] w.rows[i]).id != (
    #[trigger] w.rows[j]).id by {
        assert(t.rows[i].id != t.rows[j].id);
    }
    if username_free(t, id, username) {
        assert forall|i: int, j: int| 0 <= i < j < w.rows.len() implies !belongs(
            #[trigger] w.rows[j],
            (#[trigger] w.rows[i]).origin,
            w.rows[i].username,
        ) by {
            assert(t.rows[i].id != t.rows[j].id);
            assert(!belongs(t.rows[j], t.rows[i].origin, t.rows[i].username));
            if t.rows[i].id == id {
                assert(!belongs(t.rows[j], t.rows[i].origin, username));
            }
            if t.rows[j].id == id {
                assert(!belongs(t.rows[i], t.rows[j].origin, username));
            }
        }
    }
}

/// A change that leaves each row's number, origin and username as they were
/// keeps the invariants.
proof fn lemma_row_wise(t: PasswordTable, u: PasswordTable)
    requires
        numbered(t),
        distinct_ids(t),
        one_per_user(t),
        u.last_id == t.last_id,
        u.rows.len() == t.rows.len(),
        forall|i: int|
            0 <= i < t.rows.len() ==> (#[trigger] u.rows[i]).id == t.rows[i].id && u.rows[i].origin
                == t.rows[i].origin && u.rows[i].username == t.rows[i].username,
    ensures
        numbered(u),
        distinct_ids(u),
        one_per_user(u),
{
    assert forall|i: int| 0 <= i < u.rows.len() implies (#[trigger] u.rows[i]).id <= u.last_id by {
        assert(t.rows[i].id <= t.last_id);
    }
    assert forall|i: int, j: int| 0 <= i < j < u.rows.len() implies (#[trigger] u.rows[i]).id != (
    #[trigger] u.rows[j]).id && !belongs(u.rows[j], u.rows[i].origin, u.rows[i].username) by {
        assert(t.rows[i].id != t.rows[j].id);
        assert(!belongs(t.rows[j], t.rows[i].origin, t.rows[i].username));
    }
}

proof fn lemma_by_use()
    ensures
        sorting::strict_weak(by_use()),
{
    let less = by_use();
    assert forall|a: Stored, b: Stored| #[trigger] less(a, b) implies !less(b, a) by {
        if text::text_precedes(b.last_used, a.last_used) {
            text::lemma_text_asymmetric(b.last_used, a.last_used);
        }
    }
    assert forall|a: Stored, b: Stored, c: Stored|
        #![trigger less(a, b), less(b, c)]
        !less(a, b) && !less(b, c) implies !less(a, c) by {
        if a.use_count == b.use_count && b.use_count == c.use_count {
            text::lemma_text_negatively_transitive(c.last_used, b.last_used, a.last_used);
        }
    }
}

/// The credentials found at an origin are those saved for it, with their
/// passwords decrypted, and none stands before one that was used more often.
pub proof fn law_lookup(t: PasswordTable, origin: Seq<char>, c: Saved)
    requires
        t.key is Some,
        t.rows.len() <= usize::MAX,
    ensures
        found_at(t, origin).contains(c) <==> exists|r: Stored|
            t.rows.contains(r) && r.origin == origin && c == #[trigger] opened(r, t.key),
        forall|i: int, j: int|
            0 <= i < j < found_at(t, origin).len() ==> (#[trigger] found_at(t, origin)[i]).use_count
                >= (#[trigger] found_at(t, origin)[j]).use_count,
{
    broadcast use vstd::seq_lib::group_filter_ensures;

    lemma_by_use();
    let f = at_origin(origin);
    let here = t.rows.filter(f);
    let less = by_use();
    assert(here.len() <= t.rows.len());
    sorting::law_sorted(here, less);
    let order = sorting::sorted(here, less);
    let found = found_at(t, origin);
    if found.contains(c) {
        let i = choose|i: int| 0 <= i < found.len() && found[i] == c;
        assert(order.contains(order[i]));
        assert(here.contains(order[i]));
        lemma_filter_members(t.rows, f, order[i]);
        assert(c == opened(order[i], t.key));
    }
    if exists|r: Stored| t.rows.contains(r) && r.origin == origin && c == #[trigger] opened(r, t.key) {
        let r = choose|r: Stored|
            t.rows.contains(r) && r.origin == origin && c == #[trigger] opened(r, t.key);
        lemma_filter_members(t.rows, f, r);
        assert(order.contains(r));
        let i = choose|i: int| 0 <= i < order.len() && order[i] == r;
        assert(found[i] == c);
    }
    assert forall|i: int, j: int| 0 <= i < j < found.len() implies (#[trigger] found[i]).use_count
        >= (#[trigger] found[j]).use_count by {
        assert(!less(order[j], order[i]));
    }
}

/// A saved credential is found at its origin, with the password that was saved.
pub proof fn law_saved_is_found(
    t: PasswordTable,
    origin: Seq<char>,
    username: Seq<char>,
    enc: Seq<char>,
    now: Seq<char>,
)
    requires
        t.key is Some,
        t.last_id < i64::MAX,
        t.rows.len() < usize::MAX,
    ensures
        exists|c: Saved|
            #[trigger] found_at(with_credential(t, origin, username, enc, now), origin).contains(c)
                && c.username == username && c.password == decrypted(t.key, enc),
{
    let u = with_credential(t, origin, username, enc, now);
    let row = if known(t, origin, username) {
        let i = choose|i: int| 0 <= i < t.rows.len() && belongs(#[trigger] t.rows[i], origin, username);
        assert(u.rows[i] == renewed(t.rows[i], origin, username, enc, now));
        assert(u.rows.contains(u.rows[i]));
        u.rows[i]
    } else {
        assert(u.rows.contains(u.rows[t.rows.len() as int]));
        u.rows[t.rows.len() as int]
    };
    let c = opened(row, u.key);
    law_lookup(u, origin, c);
    assert(u.rows.contains(row) && row.origin == origin && c == opened(row, u.key));
    assert(found_at(u, origin).contains(c));
}

/// An origin that was marked as never to be asked for is known as such, and a
/// credential that was deleted is gone.
pub proof fn law_marks_and_deletions(
    t: PasswordTable,
    origin: Seq<char>,
    enc: Seq<char>,
    now: Seq<char>,
    id: i64,
)
    ensures
        known(with_credential(t, origin, NEVER_MARKER@, enc, now), origin, NEVER_MARKER@),
        forall|r: Stored| without_id(t, id).rows.contains(r) <==> t.rows.contains(r) && r.id != id,
{
    let u = with_credential(t, origin, NEVER_MARKER@, enc, now);
    if known(t, origin, NEVER_MARKER@) {
        let i = choose|i: int|
            0 <= i < t.rows.len() && belongs(#[trigger] t.rows[i], origin, NEVER_MARKER@);
        assert(u.rows[i] == renewed(t.rows[i], origin, NEVER_MARKER@, enc, now));
        assert(belongs(u.rows[i], origin, NEVER_MARKER@));
    } else {
        assert(belongs(u.rows[t.rows.len() as int], origin, NEVER_MARKER@));
    }
    assert forall|r: Stored| without_id(t, id).rows.contains(r) <==> t.rows.contains(r) && r.id
        != id by {
        lemma_filter_members(t.rows, other_id(id), r);
    }
}

/// After a master password was set up, another one unlocks the store exactly
/// where the key derived from it opens the verification token, and then with
/// that key: which passwords do so depends on their derived keys alone.
pub proof fn law_unlocking_rests_on_the_derived_key(
    s: Map<Seq<char>, Seq<char>>,
    master: Seq<u8>,
    salt: Seq<u8>,
    nonce: Seq<u8>,
    other: Seq<u8>,
)
    requires
        salt.len() == ARGON2_SALT_LEN,
        nonce.len() == AES_NONCE_LEN,
    ensures
        ({
            let now = with_master(s, master, salt, nonce);
            let key = crypto::argon2id(other, salt);
            let token = nonce + crypto::aes_sealed(
                crypto::argon2id(master, salt),
                nonce,
                vstd::utf8::encode_utf8(VERIFY_PLAINTEXT@),
            );
            &&& configured(now)
            &&& unlocking_key(now, other) == if unsealed(token, key) == Some(
                vstd::utf8::encode_utf8(VERIFY_PLAINTEXT@),
            ) {
                Some(key)
            } else {
                None
            }
            &&& key == crypto::argon2id(master, salt) ==> unlocking_key(now, other)
                == unlocking_key(now, master)
        }),
{
    let key = crypto::argon2id(master, salt);
    let token = nonce + crypto::aes_sealed(key, nonce, vstd::utf8::encode_utf8(VERIFY_PLAINTEXT@));
    reveal_strlit("pw_salt");
    reveal_strlit("pw_verify");
    assert("pw_salt"@.len() != "pw_verify"@.len());
    encoding::law_decode_inverts_encode(salt);
    encoding::law_decode_inverts_encode(token);
    encoding::law_encoded_length(salt);
    encoding::law_encoded_length(token);
    assert(salt.take(ARGON2_SALT_LEN as int) =~= salt);
}

proof fn lemma_logins_members(found: Seq<Saved>, c: Saved)
    ensures
        found.filter(listable()).contains(c) <==> found.contains(c) && c.username != NEVER_MARKER@,
    decreases found.len(),
{
    reveal(Seq::filter);
    if found.len() > 0 {
        let before = found.drop_last();
        let last = found.last();
        let kept = before.filter(listable());
        lemma_logins_members(before, c);
        assert(found.contains(c) <==> before.contains(c) || c == last) by {
            assert(found =~= before.push(last));
            if before.contains(c) {
                let i = choose|i: int| 0 <= i < before.len() && before[i] == c;
                assert(found[i] == c);
            }
            assert(found[found.len() - 1] == last);
        }
        if listable()(last) {
            let now = kept.push(last);
            assert(now[kept.len() as int] == last);
            if kept.contains(c) {
                let i = choose|i: int| 0 <= i < kept.len() && kept[i] == c;
                assert(now[i] == c);
            }
        }
    }
}

/// A mark that an origin is never to be asked for is no credential to fill in,
/// and every other credential found there is one.
pub proof fn law_marks_are_no_logins(t: PasswordTable, origin: Seq<char>, c: Saved)
    ensures
        logins_at(t, origin).contains(c) <==> found_at(t, origin).contains(c) && c.username
            != NEVER_MARKER@,
{
    lemma_logins_members(found_at(t, origin), c);
}

/// A locked store gives nothing out.
pub proof fn law_locked_store_is_silent(t: PasswordTable, origin: Seq<char>, stored: Seq<char>)
    requires
        t.key is None,
    ensures
        found_at(t, origin).len() == 0,
        logins_at(t, origin).len() == 0,
        all_of(t).len() == 0,
        decrypted(t.key, stored).len() == 0,
{
    reveal(Seq::filter);
}

proof fn lemma_host_len(s: Seq<char>)
    ensures
        0 <= host_len(s) <= s.len(),
        forall|k: int| 0 <= k < host_len(s) ==> !ends_host(#[trigger] s[k]),
        host_len(s) < s.len() ==> ends_host(s[host_len(s)]),
    decreases s.len(),
{
    if s.len() > 0 && !ends_host(s[0]) {
        let t = s.drop_first();
        lemma_host_len(t);
        assert forall|k: int| 0 <= k < host_len(s) implies !ends_host(#[trigger] s[k]) by {
            if k > 0 {
                assert(s[k] == t[k - 1]);
            }
        }
    }
}

/// A text without what ends a host is a host as a whole.
proof fn lemma_whole_host(s: Seq<char>)
    requires
        forall|k: int| 0 <= k < s.len() ==> !ends_host(#[trigger] s[k]),
    ensures
        host_len(s) == s.len(),
    decreases s.len(),
{
    if s.len() > 0 {
        let t = s.drop_first();
        assert forall|k: int| 0 <= k < t.len() implies !ends_host(#[trigger] t[k]) by {
            assert(t[k] == s[k + 1]);
        }
        lemma_whole_host(t);
    }
}

/// An origin is the beginning of its address, and its own origin. Behind it
/// stands nothing, or a path, a query or a fragment, and nothing of these is
/// part of it.
pub proof fn law_origin(url: Seq<char>)
    ensures
        text::begins(url, origin_of(url)),
        origin_of(origin_of(url)) == origin_of(url),
        origin_of(url).len() < url.len() ==> ends_host(url[origin_of(url).len() as int]),
        match text::position(url, "://"@) {
            Some(i) => forall|k: int|
                i + 3 <= k < origin_of(url).len() ==> !ends_host(#[trigger] origin_of(url)[k]),
            None => origin_of(url) == url,
        },
{
    reveal_strlit("://");
    text::lemma_position(url, "://"@);
    let o = origin_of(url);
    assert(url.subrange(0, url.len() as int) =~= url);
    if let Some(i) = text::position(url, "://"@) {
        let rest = url.skip(i + 3);
        lemma_host_len(rest);
        assert(url.subrange(0, o.len() as int) =~= o);
        assert forall|k: int| i + 3 <= k < o.len() implies !ends_host(#[trigger] o[k]) by {
            assert(o[k] == rest[k - i - 3]);
        }
        text::lemma_position(o, "://"@);
        assert(o.subrange(i, i + 3) =~= url.subrange(i, i + 3));
        assert(text::occurs_at(o, "://"@, i));
        assert forall|j: int| 0 <= j < i implies !text::occurs_at(o, "://"@, j) by {
            if text::occurs_at(o, "://"@, j) {
                assert(o.subrange(j, j + 3) =~= url.subrange(j, j + 3));
                assert(text::occurs_at(url, "://"@, j));
            }
        }
        assert(text::first_at(o, "://"@, i));
        let short = o.skip(i + 3);
        assert forall|k: int| 0 <= k < short.len() implies !ends_host(#[trigger] short[k]) by {
            assert(short[k] == o[k + i + 3]);
        }
        lemma_whole_host(short);
        assert(o.take(o.len() as int) =~= o);
    }
}

/// Editing a credential gives the row with its number the new username and a
/// password that reads as the new one, and changes nothing else: not the rest
/// of the row, no other row, and neither their number nor their order.
pub proof fn law_editing_one_credential(
    t: PasswordTable,
    id: i64,
    username: Seq<char>,
    password: Seq<char>,
    enc: Seq<char>,
)
    requires
        encrypts(t.key, password, enc),
    ensures
        ({
            let u = with_rewrite(t, id, username, enc);
            &&& u.rows.len() == t.rows.len()
            &&& u.key == t.key
            &&& u.last_id == t.last_id
            &&& forall|i: int|
                0 <= i < t.rows.len() && (#[trigger] t.rows[i]).id != id ==> u.rows[i] == t.rows[i]
            &&& forall|i: int|
                0 <= i < t.rows.len() && (#[trigger] t.rows[i]).id == id ==> {
                    &&& u.rows[i].id == id
                    &&& u.rows[i].origin == t.rows[i].origin
                    &&& u.rows[i].username == username
                    &&& decrypted(u.key, u.rows[i].password_enc) == password
                    &&& u.rows[i].created == t.rows[i].created
                    &&& u.rows[i].last_used == t.rows[i].last_used
                    &&& u.rows[i].use_count == t.rows[i].use_count
                }
        }),
{
}

/// Saving the password of a user who has one at the origin renews that
/// password, counts a use and notes the time, and changes nothing else.
pub proof fn law_saving_renews_one_credential(
    t: PasswordTable,
    origin: Seq<char>,
    username: Seq<char>,
    password: Seq<char>,
    enc: Seq<char>,
    now: Seq<char>,
    k: int,
)
    requires
        encrypts(t.key, password, enc),
        0 <= k < t.rows.len(),
        t.rows[k].origin == origin,
        t.rows[k].username == username,
    ensures
        ({
            let u = with_credential(t, origin, username, enc, now);
            &&& u.rows.len() == t.rows.len()
            &&& u.key == t.key
            &&& u.last_id == t.last_id
            &&& forall|i: int|
                0 <= i < t.rows.len() && !((#[trigger] t.rows[i]).origin == origin && t.rows[i].username
                    == username) ==> u.rows[i] == t.rows[i]
            &&& u.rows[k].id == t.rows[k].id
            &&& u.rows[k].origin == origin
            &&& u.rows[k].username == username
            &&& decrypted(u.key, u.rows[k].password_enc) == password
            &&& u.rows[k].created == t.rows[k].created
            &&& u.rows[k].last_used == now
            &&& t.rows[k].use_count < i64::MAX ==> u.rows[k].use_count - t.rows[k].use_count == 1
            &&& t.rows[k].use_count == i64::MAX ==> u.rows[k].use_count == i64::MAX
        }),
{
    assert(belongs(t.rows[k], origin, username));
}

/// Saving the password of a user who has none at the origin adds a row behind
/// the others, which stay as they are, with the next number and no use yet.
pub proof fn law_saving_adds_one_credential(
    t: PasswordTable,
    origin: Seq<char>,
    username: Seq<char>,
    password: Seq<char>,
    enc: Seq<char>,
    now: Seq<char>,
)
    requires
        encrypts(t.key, password, enc),
        t.last_id < i64::MAX,
        forall|i: int|
            0 <= i < t.rows.len() ==> !((#[trigger] t.rows[i]).origin == origin && t.rows[i].username
                == username),
    ensures
        ({
            let u = with_credential(t, origin, username, enc, now);
            let n = t.rows.len() as int;
            &&& u.rows.len() == n + 1
            &&& u.key == t.key
            &&& u.last_id == t.last_id + 1
            &&& forall|i: int| 0 <= i < n ==> #[trigger] u.rows[i] == t.rows[i]
            &&& u.rows[n].id == t.last_id + 1
            &&& u.rows[n].origin == origin
            &&& u.rows[n].username == username
            &&& decrypted(u.key, u.rows[n].password_enc) == password
            &&& u.rows[n].created == now
            &&& u.rows[n].last_used == now
            &&& u.rows[n].use_count == 0
        }),
{
}

/// A use of a credential is counted and its time noted, on the row with its
/// number alone, and nothing else changes.
pub proof fn law_uses_are_counted(t: PasswordTable, id: i64, now: Seq<char>, i: int)
    requires
        0 <= i < t.rows.len(),
    ensures
        ({
            let u = with_use(t, id, now);
            &&& u.rows.len() == t.rows.len()
            &&& u.key == t.key
            &&& u.last_id == t.last_id
            &&& t.rows[i].id != id ==> u.rows[i] == t.rows[i]
            &&& t.rows[i].id == id ==> {
                &&& u.rows[i].last_used == now
                &&& t.rows[i].use_count < i64::MAX ==> u.rows[i].use_count - t.rows[i].use_count == 1
                &&& u.rows[i].id == id
                &&& u.rows[i].origin == t.rows[i].origin
                &&& u.rows[i].username == t.rows[i].username
                &&& u.rows[i].password_enc == t.rows[i].password_enc
                &&& u.rows[i].created == t.rows[i].created
            }
        }),
{
}

/// Deleting a credential takes out the row with its number and no other, and
/// keeps the order of the rest, the key and the numbers given.
pub proof fn law_deleting_one_credential(
    t: PasswordTable,
    id: i64,
    r: Stored,
    a: Seq<Stored>,
    b: Seq<Stored>,
)
    ensures
        without_id(t, id).key == t.key,
        without_id(t, id).last_id == t.last_id,
        without_id(t, id).rows.contains(r) <==> t.rows.contains(r) && r.id != id,
        t.rows == a + seq![r] + b && r.id == id && (forall|i: int|
            0 <= i < a.len() ==> (#[trigger] a[i]).id != id) && (forall|i: int|
            0 <= i < b.len() ==> (#[trigger] b[i]).id != id) ==> without_id(t, id).rows == a + b,
        (forall|i: int| 0 <= i < t.rows.len() ==> (#[trigger] t.rows[i]).id != id) ==> without_id(
            t,
            id,
        ).rows == t.rows,
{
    let f = other_id(id);
    records::lemma_filter_holds(t.rows, f, r);
    if forall|i: int| 0 <= i < t.rows.len() ==> (#[trigger] t.rows[i]).id != id {
        records::lemma_filter_all(t.rows, f);
    }
    if t.rows == a + seq![r] + b && r.id == id && (forall|i: int|
        0 <= i < a.len() ==> (#[trigger] a[i]).id != id) && (forall|i: int|
        0 <= i < b.len() ==> (#[trigger] b[i]).id != id) {
        records::lemma_filter_pieces(a, r, b, f);
        records::lemma_filter_all(a, f);
        records::lemma_filter_all(b, f);
        assert(a + Seq::<Stored>::empty() + b =~= a + b);
    }
}

/// Opening a row shows what is stored, with the password read under the key.
pub proof fn law_opened_row(r: Stored, key: Option<Seq<u8>>)
    ensures
        opened(r, key).id == r.id,
        opened(r, key).origin == r.origin,
        opened(r, key).username == r.username,
        opened(r, key).password == decrypted(key, r.password_enc),
        opened(r, key).created == r.created,
        opened(r, key).last_used == r.last_used,
        opened(r, key).use_count == r.use_count,
{
}

/// A password that is stored as nonce and ciphertext, armoured, reads as what
/// the cipher opens under the key and the nonce; as nothing where the cipher
/// refuses, the text is no armour, it is too short, or there is no key.
pub proof fn law_stored_passwords_are_read(key: Seq<u8>, nonce: Seq<u8>, sealed: Seq<u8>, stored: Seq<char>)
    requires
        nonce.len() == 12,
    ensures
        sealed.len() >= 16 ==> match crypto::aes_opened(key, nonce, sealed) {
            Some(bytes) => vstd::utf8::valid_utf8(bytes) ==> decrypted(
                Some(key),
                encoding::encoded(nonce + sealed),
            ) == vstd::utf8::decode_utf8(bytes),
            None => decrypted(Some(key), encoding::encoded(nonce + sealed)).len() == 0,
        },
        sealed.len() >= 16 ==> unsealed(nonce + sealed, key) == crypto::aes_opened(
            key,
            nonce,
            sealed,
        ),
        sealed.len() < 16 ==> unsealed(nonce + sealed, key) is None && decrypted(
            Some(key),
            encoding::encoded(nonce + sealed),
        ).len() == 0,
        encoding::decoded(stored) is None ==> decrypted(Some(key), stored).len() == 0,
        decrypted(None, stored).len() == 0,
{
    let data = nonce + sealed;
    encoding::law_decode_inverts_encode(data);
    assert(data.take(12) =~= nonce);
    assert(data.skip(12) =~= sealed);
}

/// A credential is stored under a nonce of twelve bytes, followed by what the
/// cipher makes of the password, armoured.
pub proof fn law_stored_form(key: Seq<u8>, nonce: Seq<u8>, password: Seq<char>)
    ensures
        encoding::decoded(encryption(key, nonce, password)) == Some(
            nonce + crypto::aes_sealed(key, nonce, vstd::utf8::encode_utf8(password)),
        ),
{
    encoding::law_decode_inverts_encode(
        nonce + crypto::aes_sealed(key, nonce, vstd::utf8::encode_utf8(password)),
    );
}

/// A lookup gives as many credentials as the origin has rows.
pub proof fn law_lookup_counts(t: PasswordTable, origin: Seq<char>)
    requires
        t.key is Some,
        t.rows.len() <= usize::MAX,
    ensures
        found_at(t, origin).len() == t.rows.filter(|r: Stored| r.origin == origin).len(),
{
    broadcast use vstd::seq_lib::group_filter_ensures;

    lemma_by_use();
    assert(at_origin(origin) =~= (|r: Stored| r.origin == origin));
    sorting::law_sorted(t.rows.filter(at_origin(origin)), by_use());
}

/// Of credentials used as often, a lookup gives the one used last first.
pub proof fn law_lookup_order(t: PasswordTable, origin: Seq<char>, i: int, j: int)
    requires
        t.key is Some,
        t.rows.len() <= usize::MAX,
        0 <= i < j < found_at(t, origin).len(),
        found_at(t, origin)[i].use_count == found_at(t, origin)[j].use_count,
    ensures
        !text::text_precedes(found_at(t, origin)[i].last_used, found_at(t, origin)[j].last_used),
{
    broadcast use vstd::seq_lib::group_filter_ensures;

    lemma_by_use();
    let here = t.rows.filter(at_origin(origin));
    assert(here.len() <= t.rows.len());
    sorting::law_sorted(here, by_use());
    let order = sorting::sorted(here, by_use());
    let less = by_use();
    assert(!less(order[j], order[i]));
}

proof fn lemma_by_name()
    ensures
        sorting::strict_weak(by_name()),
{
    let less = by_name();
    assert forall|a: Stored, b: Stored| #[trigger] less(a, b) implies !less(b, a) by {
        if text::text_precedes(a.origin, b.origin) {
            text::lemma_text_asymmetric(a.origin, b.origin);
        }
        if text::text_precedes(a.username, b.username) {
            text::lemma_text_asymmetric(a.username, b.username);
        }
    }
    assert forall|a: Stored, b: Stored, c: Stored|
        #![trigger less(a, b), less(b, c)]
        !less(a, b) && !less(b, c) implies !less(a, c) by {
        let (x, y, z) = (a.origin, b.origin, c.origin);
        text::lemma_text_negatively_transitive(x, y, z);
        if !text::text_precedes(z, x) {
            if text::text_precedes(y, x) {
                if !text::text_precedes(y, z) {
                    text::lemma_text_negatively_transitive(y, z, x);
                }
                text::lemma_text_asymmetric(y, x);
                if !text::text_precedes(z, y) {
                    text::lemma_text_negatively_transitive(z, x, y);
                    text::lemma_text_negatively_transitive(z, y, x);
                }
            }
            if text::text_precedes(z, y) {
                text::lemma_text_negatively_transitive(z, x, y);
            }
            if !text::text_precedes(y, x) && !text::text_precedes(z, y) {
                text::lemma_text_negatively_transitive(a.username, b.username, c.username);
            }
        }
    }
}

/// The management list shows every row of the store, with its password, by
/// origin and then by username.
pub proof fn law_all_credentials(t: PasswordTable, c: Saved)
    requires
        t.key is Some,
        t.rows.len() <= usize::MAX,
    ensures
        all_of(t).len() == t.rows.len(),
        all_of(t).contains(c) <==> exists|r: Stored|
            t.rows.contains(r) && c == #[trigger] opened(r, t.key),
        forall|i: int, j: int|
            0 <= i < j < t.rows.len() ==> !text::text_precedes(
                (#[trigger] all_of(t)[j]).origin,
                (#[trigger] all_of(t)[i]).origin,
            ) && (all_of(t)[i].origin == all_of(t)[j].origin ==> !text::text_precedes(
                all_of(t)[j].username,
                all_of(t)[i].username,
            )),
{
    lemma_by_name();
    let less = by_name();
    sorting::law_sorted(t.rows, less);
    let order = sorting::sorted(t.rows, less);
    let all = all_of(t);
    if all.contains(c) {
        let k = choose|k: int| 0 <= k < all.len() && all[k] == c;
        assert(order.contains(order[k]));
        assert(t.rows.contains(order[k]) && c == opened(order[k], t.key));
    }
    if exists|r: Stored| t.rows.contains(r) && c == #[trigger] opened(r, t.key) {
        let r = choose|r: Stored| t.rows.contains(r) && c == #[trigger] opened(r, t.key);
        assert(order.contains(r));
        let k = choose|k: int| 0 <= k < order.len() && order[k] == r;
        assert(all[k] == c);
    }
    assert forall|i: int, j: int| 0 <= i < j < t.rows.len() implies !text::text_precedes(
        (#[trigger] all[j]).origin,
        (#[trigger] all[i]).origin,
    ) && (all[i].origin == all[j].origin ==> !text::text_precedes(all[j].username, all[i].username)) by {
        assert(!less(order[j], order[i]));
        if all[i].origin == all[j].origin && text::text_precedes(all[i].origin, all[j].origin) {
            text::lemma_text_asymmetric(all[i].origin, all[j].origin);
        }
    }
}

/// A new master password is taken where it has six characters at least and was
/// typed the same twice, and only there.
pub proof fn law_new_master(master: Seq<char>, confirm: Seq<char>)
    ensures
        master_flaw(master, confirm) is None <==> master.len() >= 6 && master == confirm,
        master.len() == 0 ==> master_flaw(master, confirm) == Some("Password cannot be empty."@),
        0 < master.len() < 6 ==> master_flaw(master, confirm) == Some(
            "Password must be at least 6 characters."@,
        ),
        master.len() >= 6 && master != confirm ==> master_flaw(master, confirm) == Some(
            "Passwords do not match."@,
        ),
{
}

/// A master password is configured where a salt and a token are stored; and it
/// unlocks the store only where both can be read, the salt is long enough and
/// the key derived from it opens the token to the known text.
pub proof fn law_unlocking(s: Map<Seq<char>, Seq<char>>, master: Seq<u8>)
    ensures
        configured(s) <==> s.dom().contains("pw_salt"@) && s["pw_salt"@].len() > 0 && s.dom().contains(
            "pw_verify"@,
        ) && s["pw_verify"@].len() > 0,
        !configured(s) ==> unlocking_key(s, master) is None,
        configured(s) && encoding::decoded(s["pw_salt"@]) is Some && encoding::decoded(
            s["pw_verify"@],
        ) is Some && encoding::decoded(s["pw_salt"@])->0.len() >= 16 ==> {
            let key = crypto::argon2id(master, encoding::decoded(s["pw_salt"@])->0.take(16));
            unlocking_key(s, master) == if unsealed(encoding::decoded(s["pw_verify"@])->0, key)
                == Some(vstd::utf8::encode_utf8("wynn-pw-ok"@)) {
                Some(key)
            } else {
                None
            }
        },
        configured(s) && (encoding::decoded(s["pw_salt"@]) is None || encoding::decoded(
            s["pw_verify"@],
        ) is None || encoding::decoded(s["pw_salt"@])->0.len() < 16) ==> unlocking_key(s, master)
            is None,
{
    reveal_strlit("");
}

/// Setting up a master password stores its salt and its token, and no other
/// setting.
pub proof fn law_setup_stores_salt_and_token(
    s: Map<Seq<char>, Seq<char>>,
    master: Seq<u8>,
    salt: Seq<u8>,
    nonce: Seq<u8>,
    key: Seq<char>,
)
    ensures
        ({
            let u = with_master(s, master, salt, nonce);
            &&& u.dom().contains("pw_salt"@) && u["pw_salt"@] == encoding::encoded(salt)
            &&& u.dom().contains("pw_verify"@) && encoding::decoded(u["pw_verify"@]) == Some(
                nonce + crypto::aes_sealed(
                    crypto::argon2id(master, salt),
                    nonce,
                    vstd::utf8::encode_utf8("wynn-pw-ok"@),
                ),
            )
            &&& key != "pw_salt"@ && key != "pw_verify"@ ==> (u.dom().contains(key)
                <==> s.dom().contains(key)) && (s.dom().contains(key) ==> u[key] == s[key])
        }),
{
    reveal_strlit("pw_salt");
    reveal_strlit("pw_verify");
    assert("pw_salt"@.len() != "pw_verify"@.len());
    law_stored_form(crypto::argon2id(master, salt), nonce, VERIFY_PLAINTEXT@);
}

/// What is behind a scheme, up to a slash, a question mark or a number sign,
/// belongs to the origin, and nothing behind that does.
pub proof fn law_origin_of_parts(scheme: Seq<char>, host: Seq<char>, rest: Seq<char>)
    requires
        !scheme.contains(':'),
        !host.contains('/') && !host.contains('?') && !host.contains('#'),
        rest.len() > 0 ==> rest[0] == '/' || rest[0] == '?' || rest[0] == '#',
    ensures
        origin_of(scheme + "://"@ + host + rest) == scheme + "://"@ + host,
        origin_of(scheme) == scheme,
{
    reveal_strlit("://");
    let url = scheme + "://"@ + host + rest;
    let n = scheme.len() as int;
    text::lemma_position(url, "://"@);
    assert(url.subrange(n, n + 3) =~= "://"@);
    assert(text::occurs_at(url, "://"@, n));
    assert forall|j: int| 0 <= j < n implies !text::occurs_at(url, "://"@, j) by {
        if text::occurs_at(url, "://"@, j) {
            assert(url.subrange(j, j + 3)[0] == url[j]);
            assert(scheme[j] == ':');
        }
    }
    assert(text::first_at(url, "://"@, n));
    let behind = url.skip(n + 3);
    assert(behind =~= host + rest);
    lemma_host_len(behind);
    let m = host_len(behind);
    assert(m >= host.len()) by {
        if m < host.len() {
            assert(behind[m] == host[m]);
            assert(host.contains(host[m]));
        }
    }
    assert(m <= host.len()) by {
        if m > host.len() {
            assert(behind[host.len() as int] == rest[0]);
            assert(!ends_host(behind[host.len() as int]));
        }
    }
    assert(url.take(n + 3 + m) =~= scheme + "://"@ + host);
    text::lemma_position(scheme, "://"@);
    if text::position(scheme, "://"@) is Some {
        let i = text::position(scheme, "://"@)->0;
        assert(scheme.subrange(i, i + 3)[0] == scheme[i]);
        assert(scheme.contains(scheme[i]));
    }
}

/// The prompt finds credentials that are saved already: the first with the same
/// username and password, if there is one.
pub proof fn law_saved_already(existing: Seq<Saved>, username: Seq<char>, password: Seq<char>)
    ensures
        match saved_already(existing, username, password) {
            Some(id) => exists|i: int|
                {
                    &&& 0 <= i < existing.len()
                    &&& (#[trigger] existing[i]).id == id
                    &&& existing[i].username == username
                    &&& existing[i].password == password
                    &&& forall|j: int|
                        0 <= j < i ==> !((#[trigger] existing[j]).username == username
                            && existing[j].password == password)
                },
            None => forall|j: int|
                0 <= j < existing.len() ==> !((#[trigger] existing[j]).username == username
                    && existing[j].password == password),
        },
    decreases existing.len(),
{
    if existing.len() > 0 {
        let shorter = existing.drop_last();
        law_saved_already(shorter, username, password);
        match saved_already(shorter, username, password) {
            Some(id) => {
                let i = choose|i: int|
                    {
                        &&& 0 <= i < shorter.len()
                        &&& (#[trigger] shorter[i]).id == id
                        &&& shorter[i].username == username
                        &&& shorter[i].password == password
                        &&& forall|j: int|
                            0 <= j < i ==> !((#[trigger] shorter[j]).username == username
                                && shorter[j].password == password)
                    };
                assert(existing[i] == shorter[i]);
                assert forall|j: int| 0 <= j < i implies !((#[trigger] existing[j]).username == username
                    && existing[j].password == password) by {
                    assert(existing[j] == shorter[j]);
                }
            },
            None => {
                assert forall|j: int| 0 <= j < shorter.len() implies !((
                #[trigger] existing[j]).username == username && existing[j].password == password) by {
                    assert(existing[j] == shorter[j]);
                }
                assert(existing[existing.len() - 1] == existing.last());
            },
        }
    }
}

/// Who has a credential where, and which origins have any.
pub proof fn law_known(t: PasswordTable, origin: Seq<char>, username: Seq<char>)
    ensures
        known(t, origin, username) <==> exists|i: int|
            0 <= i < t.rows.len() && (#[trigger] t.rows[i]).origin == origin && t.rows[i].username
                == username,
        saved_for(t, origin) <==> exists|i: int|
            0 <= i < t.rows.len() && (#[trigger] t.rows[i]).origin == origin && t.rows[i].username
                != NEVER_MARKER@,
{
    if exists|i: int|
        0 <= i < t.rows.len() && (#[trigger] t.rows[i]).origin == origin && t.rows[i].username
            == username {
        let i = choose|i: int|
            0 <= i < t.rows.len() && (#[trigger] t.rows[i]).origin == origin && t.rows[i].username
                == username;
        assert(belongs(t.rows[i], origin, username));
    }
}

/// The script that fills a login in holds a literal for the username and one
/// for the password, which mean just these.
pub proof fn law_filled_in_is_what_was_saved(username: Seq<char>, password: Seq<char>)
    ensures
        exists|u: Seq<char>, p: Seq<char>|
            {
                &&& script::literal_value(u, '\'') == Some(username)
                &&& script::literal_value(p, '\'') == Some(password)
                &&& fill_script(username, password) == #[trigger] filled_with(u, p)
            },
{
    let u = script::quoted_lines(username);
    let p = script::quoted_lines(password);
    script::law_quoted_lines_means_itself(username);
    script::law_quoted_lines_means_itself(password);
    assert(fill_script(username, password) == filled_with(u, p));
}

/// The script that fills in what the bodies of two literals mean.
pub open spec fn filled_with(u: Seq<char>, p: Seq<char>) -> Seq<char> {
    FILL_HEAD@ + u + FILL_MIDDLE@ + p + FILL_TAIL@
}

/// A mask is made of dots: one for each byte of the password, twenty at most.
pub proof fn law_masked(password: Seq<char>)
    ensures
        ({
            let n = vstd::utf8::encode_utf8(password).len();
            &&& n <= 20 ==> masked(password).len() == n
            &&& n > 20 ==> masked(password).len() == 20
            &&& forall|i: int| 0 <= i < masked(password).len() ==> #[trigger] masked(password)[i] == '\u{2022}'
        }),
{
}

/// A row of the management list is hidden exactly where a query is typed that
/// stands neither in its title nor in its subtitle.
pub proof fn law_rows_are_hidden(query: Seq<char>, title: Seq<char>, subtitle: Seq<char>)
    ensures
        !passes(query, title, subtitle) <==> query.len() > 0 && (forall|i: int|
            !text::occurs_at(title, query, i)) && (forall|i: int|
            !text::occurs_at(subtitle, query, i)),
{
}

/// The prompt names the origin and the user it asks about.
pub proof fn law_prompt_names(update: bool, origin: Seq<char>, username: Seq<char>)
    ensures
        text::holds(prompt_body(update, origin, username), origin),
        username.len() > 0 ==> text::ends(prompt_body(update, origin, username), username),
        username.len() == 0 ==> text::ends(prompt_body(update, origin, username), "(none)"@),
        prompt_heading(update) == if update {
            "Update password?"@
        } else {
            "Save password?"@
        },
{
    let body = prompt_body(update, origin, username);
    let lead = "Would you like to "@ + (if update {
        "update"@
    } else {
        "save"@
    }) + " your password for "@;
    let tail = if username.len() == 0 {
        "(none)"@
    } else {
        username
    };
    let n = lead.len() as int;
    assert(body.subrange(n, n + origin.len()) =~= origin);
    assert(text::occurs_at(body, origin, n));
    assert(body.subrange(body.len() - tail.len(), body.len() as int) =~= tail);
}

/// Whether a username is among credentials: it is that of one of them, wherever
/// that one stands.
pub proof fn law_has_username(before: Seq<Saved>, c: Saved, after: Seq<Saved>, username: Seq<char>)
    ensures
        !has_username(Seq::empty(), username),
        has_username(before + seq![c] + after, username) <==> c.username == username || has_username(
            before,
            username,
        ) || has_username(after, username),
{
    let all = before + seq![c] + after;
    let n = before.len() as int;
    assert(all[n] == c);
    if has_username(before, username) {
        let i = choose|i: int| 0 <= i < before.len() && (#[trigger] before[i]).username == username;
        assert(all[i] == before[i]);
    }
    if has_username(after, username) {
        let i = choose|i: int| 0 <= i < after.len() && (#[trigger] after[i]).username == username;
        assert(all[n + 1 + i] == after[i]);
    }
    if has_username(all, username) {
        let i = choose|i: int| 0 <= i < all.len() && (#[trigger] all[i]).username == username;
        if i < n {
            assert(all[i] == before[i]);
        } else if i > n {
            assert(all[i] == after[i - n - 1]);
        }
    }
}

/// The button that saves bears the verb that the heading asks about.
pub proof fn law_prompt_button(update: bool)
    ensures
        prompt_heading(update) == prompt_accept(update) + " password?"@,
        update ==> prompt_accept(update) == "Update"@,
        !update ==> prompt_accept(update) == "Save"@,
{
    reveal_strlit("Update");
    reveal_strlit("Save");
    reveal_strlit(" password?");
    reveal_strlit("Update password?");
    reveal_strlit("Save password?");
    assert("Update password?"@ =~= "Update"@ + " password?"@);
    assert("Save password?"@ =~= "Save"@ + " password?"@);
}

} // verus!
