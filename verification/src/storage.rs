//! The storage facade: opens a database, enforces the password policy,
//! orchestrates envelope encryption on reads and writes, exposes the
//! transactional API, and produces and consumes encrypted backups.
//!
//! The facade's state is modelled by the engine's map from key bytes to
//! stored bytes (`contents`), the registry's map from live handles to
//! buffered operations, and the resident data encryption key, if any. In
//! encrypted mode every stored value is a sealed envelope; what a stored
//! value means is `stored_plain` of it.

use vstd::prelude::*;

verus! {

use vstd::utf8::{valid_utf8, decode_utf8, encode_utf8};
use vstd::string::StrSliceExecFns;
use crate::config::StorageConfig;
use crate::crypto::{
    sealed_open,
    stream_open_of,
    SEAL_PAYLOAD_BOUND,
    seal_with_password,
    unseal_with_password,
    stream_encrypt,
    stream_decrypt,
    generate_key_bytes,
    bytes_to_string,
};
use crate::engine::{Engine, puts_applied};
use crate::framing::{encode_payload, decode_payload, encode_records, parse_records, entries_view};
use crate::hexcodec::{hex_of, hex_encode};
use crate::errors::{StorageError, NotFoundWhat};
use crate::order::{KeyOrder, compare_bytes, is_prefix_of, lex_lt};
use crate::policy::{PasswordPolicy, PasswordPolicyConfig};
use crate::registry::{TransactionRegistry, TransactionHandle};

/// The reserved engine key the wrapped data encryption key lives under:
/// the bytes of `DEK`.
pub open spec fn dek_key() -> Seq<u8> {
    seq![68u8, 69u8, 75u8]
}

/// The reserved key as a vector.
pub fn dek_key_bytes() -> (r: Vec<u8>)
    ensures
        r@ == dek_key(),
{
    let mut r: Vec<u8> = Vec::new();
    r.push(68);
    r.push(69);
    r.push(75);
    proof {
        assert(r@ =~= dek_key());
    }
    r
}

/// What stored bytes mean to a reader: themselves in plaintext mode, their
/// sealed payload in encrypted mode (or nothing, when they do not verify).
pub open spec fn stored_plain(dek: Option<Seq<u8>>, stored: Seq<u8>) -> Option<Seq<u8>> {
    match dek {
        None => Some(stored),
        Some(d) => sealed_open(d, stored),
    }
}

/// The policy a configuration resolves to: the override, or the defaults.
pub open spec fn effective_policy(config: Option<PasswordPolicyConfig>) -> PasswordPolicy {
    match config {
        Some(c) => PasswordPolicy {
            min_length: c.min_length,
            min_number_of_special_chars: c.min_number_of_special_chars,
            min_number_of_uppercase: c.min_number_of_uppercase,
            min_number_of_digits: c.min_number_of_digits,
        },
        None => PasswordPolicy {
            min_length: 12,
            min_number_of_special_chars: 3,
            min_number_of_uppercase: 3,
            min_number_of_digits: 3,
        },
    }
}

/// The entries of `s` whose key starts with `p`, the reserved entry always
/// left out. With an empty `p` this is every user entry.
pub open spec fn scan_entries(s: Seq<(Seq<u8>, Seq<u8>)>, p: Seq<u8>) -> Seq<(Seq<u8>, Seq<u8>)>
    decreases s.len(),
{
    if s.len() == 0 {
        Seq::empty()
    } else {
        scan_entries(s.drop_last(), p) + (if is_prefix_of(p, s.last().0) && s.last().0
            != dek_key() {
            seq![s.last()]
        } else {
            Seq::empty()
        })
    }
}

/// A range where nothing matches contributes nothing.
pub proof fn lemma_scan_entries_stable(s: Seq<(Seq<u8>, Seq<u8>)>, p: Seq<u8>, b: int)
    requires
        0 <= b <= s.len(),
        forall|j: int|
            b <= j < s.len() ==> !(is_prefix_of(p, (#[trigger] s[j]).0) && s[j].0 != dek_key()),
    ensures
        scan_entries(s, p) =~= scan_entries(s.take(b), p),
    decreases s.len(),
{
    if b == s.len() {
        assert(s.take(b) =~= s);
    } else {
        assert(s.len() > 0);
        lemma_scan_entries_stable(s.drop_last(), p, b);
        assert(s.drop_last().take(b) =~= s.take(b));
    }
}

/// The storage facade.
pub struct Storage {
    pub engine: Engine,
    pub registry: TransactionRegistry,
    pub dek: Option<Vec<u8>>,
    pub password_policy: PasswordPolicy,
}

impl Storage {
    /// The engine's map from key bytes to stored bytes.
    pub open spec fn contents(self) -> Map<Seq<u8>, Seq<u8>> {
        self.engine@
    }

    /// The resident data encryption key, abstracted.
    pub open spec fn dek_spec(self) -> Option<Seq<u8>> {
        match self.dek {
            Some(d) => Some(d@),
            None => None,
        }
    }

    /// Whether the store seals values (fixed at open time).
    pub open spec fn is_encrypted(self) -> bool {
        self.dek is Some
    }

    /// The contents without the reserved entry.
    pub open spec fn user_contents(self) -> Map<Seq<u8>, Seq<u8>> {
        self.contents().remove(dek_key())
    }

    /// Well-formedness of the parts.
    pub open spec fn wf(self) -> bool {
        self.engine.inv() && self.registry.inv()
    }

    /// What `read` returns, as a function of the state and the key.
    pub open spec fn spec_read(self, key: Seq<char>) -> Result<Option<Seq<char>>, StorageError> {
        let kb = encode_utf8(key);
        if kb == dek_key() {
            Ok(None)
        } else if !self.contents().contains_key(kb) {
            Ok(None)
        } else {
            match stored_plain(self.dek_spec(), self.contents()[kb]) {
                None => Err(StorageError::FailedToDecryptData),
                Some(p) => if valid_utf8(p) {
                    Ok(Some(decode_utf8(p)))
                } else {
                    Err(StorageError::ConversionError)
                },
            }
        }
    }

    /// What opening a database over engine contents `base` promises: the
    /// effective policy installed, no live transactions, and the mode settled
    /// by the configuration. With a passphrase: an existing wrapped-key entry
    /// is unwrapped (or the open fails with `WrongPassword`); on a fresh
    /// store the passphrase must pass the policy, and a freshly generated
    /// 32-byte key is wrapped under it and stored under the reserved key.
    pub open spec fn open_post(
        r: Result<Storage, StorageError>,
        config: StorageConfig,
        policy_config: Option<PasswordPolicyConfig>,
        base: Map<Seq<u8>, Seq<u8>>,
    ) -> bool {
        match r {
            Ok(st) => {
                &&& st.wf()
                &&& st.password_policy == effective_policy(policy_config)
                &&& st.registry@ =~= Map::<
                    TransactionHandle,
                    Seq<(Seq<u8>, Option<Seq<u8>>)>,
                >::empty()
                &&& match config.password {
                    None => !st.is_encrypted() && st.contents() =~= base,
                    Some(pw) => {
                        &&& st.is_encrypted()
                        &&& if base.contains_key(dek_key()) {
                            st.contents() =~= base && Some(st.dek_spec()->0) == sealed_open(
                                encode_utf8(pw@),
                                base[dek_key()],
                            )
                        } else {
                            &&& effective_policy(policy_config).allows(pw@)
                            &&& st.dek_spec()->0.len() == 32
                            &&& st.contents() =~= base.insert(
                                dek_key(),
                                st.contents()[dek_key()],
                            )
                            &&& sealed_open(encode_utf8(pw@), st.contents()[dek_key()]) == Some(
                                st.dek_spec()->0,
                            )
                        }
                    },
                }
            },
            Err(e) => match config.password {
                None => false,
                Some(pw) => {
                    ||| e == StorageError::WeakPassword(effective_policy(policy_config))
                        && !base.contains_key(dek_key()) && !effective_policy(
                        policy_config,
                    ).allows(pw@)
                    ||| e == StorageError::WrongPassword && base.contains_key(dek_key())
                        && sealed_open(encode_utf8(pw@), base[dek_key()]) is None
                    ||| e == StorageError::RandomDekGenerationError && !base.contains_key(
                        dek_key(),
                    ) && effective_policy(policy_config).allows(pw@)
                },
            },
        }
    }

    /// The shared open path: build the engine over the given entries, resolve
    /// the policy, and settle the encryption mode from the configuration.
    fn open_db(
        config: &StorageConfig,
        policy_config: Option<PasswordPolicyConfig>,
        entries: Vec<(Vec<u8>, Vec<u8>)>,
    ) -> (r: Result<Storage, StorageError>)
        ensures
            Storage::open_post(
                r,
                *config,
                policy_config,
                crate::engine::puts_applied(
                    Map::<Seq<u8>, Seq<u8>>::empty(),
                    entries@.map_values(|p: (Vec<u8>, Vec<u8>)| (p.0@, p.1@)),
                ),
            ),
    {
        let ghost base = crate::engine::puts_applied(
            Map::<Seq<u8>, Seq<u8>>::empty(),
            entries@.map_values(|p: (Vec<u8>, Vec<u8>)| (p.0@, p.1@)),
        );
        let policy = match policy_config {
            Some(c) => PasswordPolicy::new(c),
            None => PasswordPolicy::default(),
        };
        proof {
            assert(policy == effective_policy(policy_config));
        }
        let mut engine = Engine::from_entries(entries);
        let registry = TransactionRegistry::new();
        match &config.password {
            None => Ok(
                Storage { engine, registry, dek: None, password_policy: policy },
            ),
            Some(pw) => {
                let pwb = pw.as_str().as_bytes_vec();
                let dkb = dek_key_bytes();
                match engine.get(&dkb) {
                    Some(blob) => match unseal_with_password(&pwb, &blob) {
                        Ok(dk) => Ok(
                            Storage {
                                engine,
                                registry,
                                dek: Some(dk),
                                password_policy: policy,
                            },
                        ),
                        Err(_) => Err(StorageError::WrongPassword),
                    },
                    None => {
                        if !policy.is_valid(pw.as_str()) {
                            return Err(StorageError::WeakPassword(policy));
                        }
                        let dk = match generate_key_bytes() {
                            Ok(dk) => dk,
                            Err(_) => {
                                return Err(StorageError::RandomDekGenerationError);
                            },
                        };
                        let blob = match seal_with_password(&pwb, &dk) {
                            Ok(blob) => blob,
                            Err(_) => {
                                return Err(StorageError::FailedToEncryptData);
                            },
                        };
                        engine.put(dkb, blob);
                        proof {
                            assert(engine@[dek_key()] == blob@);
                        }
                        Ok(
                            Storage {
                                engine,
                                registry,
                                dek: Some(dk),
                                password_policy: policy,
                            },
                        )
                    },
                }
            },
        }
    }

    /// Create a database, empty at first; with a passphrase in the
    /// configuration the store is encrypted from the start.
    pub fn new(config: &StorageConfig) -> (r: Result<Storage, StorageError>)
        ensures
            Storage::open_post(r, *config, None, Map::<Seq<u8>, Seq<u8>>::empty()),
    {
        Storage::new_with_policy(config, None)
    }

    /// Create a database with a policy override.
    pub fn new_with_policy(
        config: &StorageConfig,
        password_policy_config: Option<PasswordPolicyConfig>,
    ) -> (r: Result<Storage, StorageError>)
        ensures
            Storage::open_post(
                r,
                *config,
                password_policy_config,
                Map::<Seq<u8>, Seq<u8>>::empty(),
            ),
    {
        Storage::open_db(config, password_policy_config, Vec::new())
    }

    /// Open a database over its persisted entries, as the embedding
    /// application read them back.
    pub fn open(config: &StorageConfig, entries: Vec<(Vec<u8>, Vec<u8>)>) -> (r: Result<
        Storage,
        StorageError,
    >)
        ensures
            Storage::open_post(
                r,
                *config,
                None,
                crate::engine::puts_applied(
                    Map::<Seq<u8>, Seq<u8>>::empty(),
                    entries@.map_values(|p: (Vec<u8>, Vec<u8>)| (p.0@, p.1@)),
                ),
            ),
    {
        Storage::open_db(config, None, entries)
    }

    /// Open a database over its persisted entries, with a policy override.
    pub fn open_with_policy(
        config: &StorageConfig,
        password_policy_config: Option<PasswordPolicyConfig>,
        entries: Vec<(Vec<u8>, Vec<u8>)>,
    ) -> (r: Result<Storage, StorageError>)
        ensures
            Storage::open_post(
                r,
                *config,
                password_policy_config,
                crate::engine::puts_applied(
                    Map::<Seq<u8>, Seq<u8>>::empty(),
                    entries@.map_values(|p: (Vec<u8>, Vec<u8>)| (p.0@, p.1@)),
                ),
            ),
    {
        Storage::open_db(config, password_policy_config, entries)
    }

    /// Rotate the passphrase: unwrap the stored wrapped key with the old
    /// passphrase and wrap the same key under the new one. Values are never
    /// re-encrypted, and the resident key does not change.
    pub fn change_password(&mut self, old_password: String, new_password: String) -> (r: Result<
        (),
        StorageError,
    >)
        requires
            old(self).wf(),
        ensures
            final(self).wf(),
            final(self).registry@ == old(self).registry@,
            final(self).dek == old(self).dek,
            final(self).password_policy == old(self).password_policy,
            !old(self).is_encrypted() ==> r == Err::<(), StorageError>(StorageError::NoPasswordSet)
                && final(self).contents() == old(self).contents(),
            old(self).is_encrypted() && !old(self).password_policy.allows(new_password@) ==> r
                == Err::<(), StorageError>(StorageError::WeakPassword(old(self).password_policy))
                && final(self).contents() == old(self).contents(),
            old(self).is_encrypted() && old(self).password_policy.allows(new_password@) && !old(self).contents().contains_key(dek_key()) ==> r == Err::<(), StorageError>(
                StorageError::NotFound(NotFoundWhat::DekEntry),
            ) && final(self).contents() == old(self).contents(),
            old(self).is_encrypted() && old(self).password_policy.allows(new_password@) && old(self).contents().contains_key(dek_key()) && sealed_open(
                encode_utf8(old_password@),
                old(self).contents()[dek_key()],
            ) is None ==> r == Err::<(), StorageError>(StorageError::WrongPassword) && final(self).contents() == old(self).contents(),
            old(self).is_encrypted() && old(self).password_policy.allows(new_password@) && old(self).contents().contains_key(dek_key()) && sealed_open(
                encode_utf8(old_password@),
                old(self).contents()[dek_key()],
            ) is Some ==> match r {
                Ok(_) => final(self).contents() =~= old(self).contents().insert(
                    dek_key(),
                    final(self).contents()[dek_key()],
                ) && sealed_open(encode_utf8(new_password@), final(self).contents()[dek_key()])
                    == sealed_open(encode_utf8(old_password@), old(self).contents()[dek_key()]),
                Err(e) => e == StorageError::FailedToEncryptData && final(self).contents() == old(self).contents() && sealed_open(
                    encode_utf8(old_password@),
                    old(self).contents()[dek_key()],
                )->0.len() >= SEAL_PAYLOAD_BOUND,
            },
    {
        if self.dek.is_none() {
            return Err(StorageError::NoPasswordSet);
        }
        if !self.password_policy.is_valid(new_password.as_str()) {
            return Err(StorageError::WeakPassword(self.password_policy.clone()));
        }
        let dkb = dek_key_bytes();
        let blob = match self.engine.get(&dkb) {
            Some(blob) => blob,
            None => {
                return Err(StorageError::NotFound(NotFoundWhat::DekEntry));
            },
        };
        let old_pwb = old_password.as_str().as_bytes_vec();
        let dk = match unseal_with_password(&old_pwb, &blob) {
            Ok(dk) => dk,
            Err(_) => {
                return Err(StorageError::WrongPassword);
            },
        };
        let new_pwb = new_password.as_str().as_bytes_vec();
        let new_blob = match seal_with_password(&new_pwb, &dk) {
            Ok(b) => b,
            Err(_) => {
                return Err(StorageError::FailedToEncryptData);
            },
        };
        self.engine.put(dkb, new_blob);
        proof {
            assert(final(self).contents()[dek_key()] == new_blob@);
        }
        Ok(())
    }

    /// Point read of a key. In encrypted mode the stored envelope is opened
    /// with the resident key; the plain bytes must be UTF-8. The reserved
    /// entry is invisible: reading its key answers as if absent.
    pub fn read(&self, key: &str) -> (r: Result<Option<String>, StorageError>)
        requires
            self.wf(),
        ensures
            match r {
                Ok(Some(s)) => self.spec_read(key@) == Ok::<Option<Seq<char>>, StorageError>(
                    Some(s@),
                ),
                Ok(None) => self.spec_read(key@) == Ok::<Option<Seq<char>>, StorageError>(None),
                Err(e) => self.spec_read(key@) == Err::<Option<Seq<char>>, StorageError>(e),
            },
    {
        let kb = key.as_bytes_vec();
        let dkb = dek_key_bytes();
        if matches!(compare_bytes(&kb, &dkb), KeyOrder::Equal) {
            return Ok(None);
        }
        match self.engine.get(&kb) {
            None => Ok(None),
            Some(stored) => {
                let plain = if let Some(dk) = &self.dek {
                    match unseal_with_password(dk, &stored) {
                        Ok(p) => p,
                        Err(_) => {
                            return Err(StorageError::FailedToDecryptData);
                        },
                    }
                } else {
                    stored
                };
                match bytes_to_string(plain) {
                    Ok(s) => Ok(Some(s)),
                    Err(_) => Err(StorageError::ConversionError),
                }
            },
        }
    }

    /// Store a value under a key, sealing it first in encrypted mode. A
    /// single-operation write commits immediately.
    pub fn write(&mut self, key: &str, value: &str) -> (r: Result<(), StorageError>)
        requires
            old(self).wf(),
        ensures
            final(self).wf(),
            final(self).dek == old(self).dek,
            final(self).password_policy == old(self).password_policy,
            final(self).registry == old(self).registry,
            !old(self).is_encrypted() ==> r is Ok && final(self).contents() =~= old(self).contents().insert(encode_utf8(key@), encode_utf8(value@)),
            old(self).is_encrypted() ==> match r {
                Ok(_) => {
                    let kb = encode_utf8(key@);
                    &&& final(self).contents().contains_key(kb)
                    &&& stored_plain(old(self).dek_spec(), final(self).contents()[kb]) == Some(
                        encode_utf8(value@),
                    )
                    &&& final(self).contents() =~= old(self).contents().insert(
                        kb,
                        final(self).contents()[kb],
                    )
                },
                Err(e) => e == StorageError::FailedToEncryptData && final(self).contents() == old(self).contents() && encode_utf8(value@).len() >= SEAL_PAYLOAD_BOUND,
            },
    {
        let kb = key.as_bytes_vec();
        let vb = value.as_bytes_vec();
        let data = if let Some(dk) = &self.dek {
            match seal_with_password(dk, &vb) {
                Ok(env) => env,
                Err(_) => {
                    return Err(StorageError::FailedToEncryptData);
                },
            }
        } else {
            vb
        };
        self.engine.put(kb, data);
        proof {
            if old(self).is_encrypted() {
                assert(final(self).contents()[encode_utf8(key@)] == data@);
            }
        }
        Ok(())
    }

    /// Remove a key; removing an absent key succeeds and changes nothing.
    pub fn delete(&mut self, key: &str) -> (r: Result<(), StorageError>)
        requires
            old(self).wf(),
        ensures
            final(self).wf(),
            r is Ok,
            final(self).contents() =~= old(self).contents().remove(encode_utf8(key@)),
            final(self).dek == old(self).dek,
            final(self).password_policy == old(self).password_policy,
            final(self).registry == old(self).registry,
    {
        let kb = key.as_bytes_vec();
        self.engine.delete(&kb);
        Ok(())
    }

    /// Whether a key holds a value, without decrypting. The reserved entry
    /// answers false.
    pub fn has_key(&self, key: &str) -> (r: Result<bool, StorageError>)
        requires
            self.wf(),
        ensures
            r == Ok::<bool, StorageError>(
                encode_utf8(key@) != dek_key() && self.contents().contains_key(encode_utf8(key@)),
            ),
    {
        let kb = key.as_bytes_vec();
        let dkb = dek_key_bytes();
        if matches!(compare_bytes(&kb, &dkb), KeyOrder::Equal) {
            return Ok(false);
        }
        Ok(self.engine.contains(&kb))
    }

    /// Whether the engine holds no entries at all. The reserved entry counts:
    /// an encrypted store is never empty.
    pub fn is_empty(&self) -> (r: bool)
        requires
            self.wf(),
        ensures
            r <==> self.contents().dom() =~= Set::<Seq<u8>>::empty(),
    {
        self.engine.is_empty()
    }

    /// Every user key, in ascending byte order, each decoded as UTF-8. The
    /// reserved entry never appears.
    pub fn keys(&self) -> (r: Result<Vec<String>, StorageError>)
        requires
            self.wf(),
        ensures
            ({
                let ue = scan_entries(self.engine.rep(), Seq::empty());
                match r {
                    Ok(ks) => ks@.len() == ue.len() && forall|m: int|
                        0 <= m < ue.len() ==> valid_utf8((#[trigger] ue[m]).0) && ks@[m]@
                            == decode_utf8(ue[m].0),
                    Err(e) => e == StorageError::ConversionError && exists|m: int|
                        0 <= m < self.engine.rep().len() && (#[trigger] self.engine.rep()[m]).0
                            != dek_key() && !valid_utf8(self.engine.rep()[m].0),
                }
            }),
    {
        let ghost rep = self.engine.rep();
        let snap = self.engine.snapshot();
        let dkb = dek_key_bytes();
        let n = snap.len();
        let mut out: Vec<String> = Vec::new();
        let mut i: usize = 0;
        while i < n
            invariant
                self.wf(),
                rep == self.engine.rep(),
                snap@.map_values(|p: (Vec<u8>, Vec<u8>)| (p.0@, p.1@)) == rep,
                dkb@ == dek_key(),
                n == snap@.len(),
                rep.len() == n,
                i <= n,
                ({
                    let ue = scan_entries(rep.take(i as int), Seq::empty());
                    out@.len() == ue.len() && forall|m: int|
                        0 <= m < ue.len() ==> valid_utf8((#[trigger] ue[m]).0) && out@[m]@
                            == decode_utf8(ue[m].0)
                }),
            decreases n - i,
        {
            proof {
                assert(rep[i as int] == (snap@[i as int].0@, snap@[i as int].1@));
                assert(rep.take(i + 1).drop_last() =~= rep.take(i as int));
                assert(rep.take(i + 1).last() == rep[i as int]);
                assert(is_prefix_of(Seq::empty(), rep[i as int].0)) by {
                    assert(rep[i as int].0.take(0) =~= Seq::<u8>::empty());
                }
            }
            if matches!(compare_bytes(&snap[i].0, &dkb), KeyOrder::Equal) {
                proof {
                    assert(scan_entries(rep.take(i + 1), Seq::empty()) =~= scan_entries(
                        rep.take(i as int),
                        Seq::empty(),
                    ));
                }
            } else {
                let kbytes = snap[i].0.clone();
                match bytes_to_string(kbytes) {
                    Ok(s) => {
                        out.push(s);
                        proof {
                            assert(scan_entries(rep.take(i + 1), Seq::empty()) =~= scan_entries(
                                rep.take(i as int),
                                Seq::empty(),
                            ) + seq![rep[i as int]]);
                        }
                    },
                    Err(_) => {
                        return Err(StorageError::ConversionError);
                    },
                }
            }
            i = i + 1;
        }
        proof {
            assert(rep.take(n as int) =~= rep);
        }
        Ok(out)
    }

    /// The user keys starting with `key`, in ascending order. Iteration
    /// starts at the first key at or above the prefix and stops at the first
    /// key past the prefix range; keys with the prefix form one contiguous
    /// range, so this yields exactly the matching keys.
    pub fn partial_compare_keys(&self, key: &str) -> (r: Result<Vec<String>, StorageError>)
        requires
            self.wf(),
        ensures
            ({
                let pe = scan_entries(self.engine.rep(), encode_utf8(key@));
                match r {
                    Ok(ks) => ks@.len() == pe.len() && forall|m: int|
                        0 <= m < pe.len() ==> valid_utf8((#[trigger] pe[m]).0) && ks@[m]@
                            == decode_utf8(pe[m].0),
                    Err(e) => e == StorageError::ConversionError && exists|m: int|
                        0 <= m < pe.len() && !valid_utf8((#[trigger] pe[m]).0),
                }
            }),
    {
        let p = key.as_bytes_vec();
        let ghost pv = p@;
        let ghost rep = self.engine.rep();
        let snap = self.engine.snapshot();
        let dkb = dek_key_bytes();
        let n = snap.len();
        let mut i: usize = 0;
        // Seek to the first key at or above the prefix.
        while i < n && is_below(&snap[i].0, &p)
            invariant
                self.wf(),
                rep == self.engine.rep(),
                snap@.map_values(|q: (Vec<u8>, Vec<u8>)| (q.0@, q.1@)) == rep,
                pv == p@,
                n == snap@.len(),
                rep.len() == n,
                i <= n,
                forall|j: int| 0 <= j < i ==> lex_lt((#[trigger] rep[j]).0, pv),
            decreases n - i,
        {
            proof {
                assert(rep[i as int] == (snap@[i as int].0@, snap@[i as int].1@));
            }
            i = i + 1;
        }
        proof {
            if i < n {
                assert(rep[i as int] == (snap@[i as int].0@, snap@[i as int].1@));
            }
            assert forall|j: int|
                0 <= j < i ==> !(is_prefix_of(pv, (#[trigger] rep[j]).0) && rep[j].0
                    != dek_key()) by {
                if 0 <= j < i && is_prefix_of(pv, rep[j].0) {
                    crate::order::lemma_prefix_not_below(pv, rep[j].0);
                    crate::order::lemma_lex_connex(rep[j].0, pv);
                }
            }
            lemma_scan_entries_stable(rep.take(i as int), pv, 0);
            assert(rep.take(i as int).take(0) =~= Seq::<(Seq<u8>, Seq<u8>)>::empty());
        }
        let ghost gstart = i as int;
        let mut out: Vec<String> = Vec::new();
        while i < n
            invariant
                self.wf(),
                rep == self.engine.rep(),
                snap@.map_values(|q: (Vec<u8>, Vec<u8>)| (q.0@, q.1@)) == rep,
                pv == p@,
                p@ == encode_utf8(key@),
                dkb@ == dek_key(),
                n == snap@.len(),
                rep.len() == n,
                0 <= gstart <= i <= n,
                gstart == n || !lex_lt(rep[gstart].0, pv),
                ({
                    let pe = scan_entries(rep.take(i as int), pv);
                    out@.len() == pe.len() && forall|m: int|
                        0 <= m < pe.len() ==> valid_utf8((#[trigger] pe[m]).0) && out@[m]@
                            == decode_utf8(pe[m].0)
                }),
            decreases n - i,
        {
            proof {
                assert(rep[i as int] == (snap@[i as int].0@, snap@[i as int].1@));
                assert(rep.take(i + 1).drop_last() =~= rep.take(i as int));
                assert(rep.take(i + 1).last() == rep[i as int]);
            }
            if !has_prefix(&p, &snap[i].0) {
                // First key past the prefix range: nothing later matches.
                proof {
                    assert(crate::engine::strict_sorted(rep));
                    assert(0 <= gstart && gstart <= i as int && (i as int) < rep.len());
                    assert(gstart == rep.len() || !lex_lt(rep[gstart].0, pv));
                    assert(!is_prefix_of(pv, rep[i as int].0));
                    lemma_break_sound(rep, pv, gstart, i as int);
                    lemma_scan_entries_stable(rep, pv, i as int);
                }
                return Ok(out);
            }
            if matches!(compare_bytes(&snap[i].0, &dkb), KeyOrder::Equal) {
                proof {
                    assert(scan_entries(rep.take(i + 1), pv) =~= scan_entries(
                        rep.take(i as int),
                        pv,
                    ));
                }
            } else {
                let kbytes = snap[i].0.clone();
                match bytes_to_string(kbytes) {
                    Ok(s) => {
                        out.push(s);
                        proof {
                            assert(scan_entries(rep.take(i + 1), pv) =~= scan_entries(
                                rep.take(i as int),
                                pv,
                            ) + seq![rep[i as int]]);
                        }
                    },
                    Err(_) => {
                        proof {
                            let pe_i = scan_entries(rep.take(i + 1), pv);
                            assert(pe_i =~= scan_entries(rep.take(i as int), pv) + seq![
                                rep[i as int],
                            ]);
                            lemma_scan_entries_prefix_of(rep, pv, i + 1);
                            let w = scan_entries(rep.take(i as int), pv).len() as int;
                            assert(scan_entries(rep, pv)[w] == pe_i[w]);
                            assert(pe_i[w] == rep[i as int]);
                        }
                        return Err(StorageError::ConversionError);
                    },
                }
            }
            i = i + 1;
        }
        proof {
            assert(rep.take(n as int) =~= rep);
        }
        Ok(out)
    }
    /// The user entries whose key starts with `key`, in ascending key order,
    /// with the values opened in encrypted mode and both sides decoded as
    /// UTF-8.
    pub fn partial_compare(&self, key: &str) -> (r: Result<
        Vec<(String, String)>,
        StorageError,
    >)
        requires
            self.wf(),
        ensures
            ({
                let pe = scan_entries(self.engine.rep(), encode_utf8(key@));
                let dek = self.dek_spec();
                match r {
                    Ok(pairs) => pairs@.len() == pe.len() && forall|m: int|
                        0 <= m < pe.len() ==> {
                            &&& valid_utf8((#[trigger] pe[m]).0)
                            &&& pairs@[m].0@ == decode_utf8(pe[m].0)
                            &&& stored_plain(dek, pe[m].1) is Some
                            &&& valid_utf8(stored_plain(dek, pe[m].1)->0)
                            &&& pairs@[m].1@ == decode_utf8(stored_plain(dek, pe[m].1)->0)
                        },
                    Err(e) => {
                        ||| e == StorageError::FailedToDecryptData && exists|m: int|
                            0 <= m < pe.len() && stored_plain(dek, (#[trigger] pe[m]).1) is None
                        ||| e == StorageError::ConversionError && exists|m: int|
                            0 <= m < pe.len() && (!valid_utf8((#[trigger] pe[m]).0) || (
                            stored_plain(dek, pe[m].1) is Some && !valid_utf8(
                                stored_plain(dek, pe[m].1)->0,
                            )))
                    },
                }
            }),
    {
        let p = key.as_bytes_vec();
        let ghost pv = p@;
        let ghost rep = self.engine.rep();
        let snap = self.engine.snapshot();
        let dkb = dek_key_bytes();
        let n = snap.len();
        let mut i: usize = 0;
        // Seek to the first key at or above the prefix.
        while i < n && is_below(&snap[i].0, &p)
            invariant
                self.wf(),
                rep == self.engine.rep(),
                snap@.map_values(|q: (Vec<u8>, Vec<u8>)| (q.0@, q.1@)) == rep,
                pv == p@,
                n == snap@.len(),
                rep.len() == n,
                i <= n,
                forall|j: int| 0 <= j < i ==> lex_lt((#[trigger] rep[j]).0, pv),
            decreases n - i,
        {
            proof {
                assert(rep[i as int] == (snap@[i as int].0@, snap@[i as int].1@));
            }
            i = i + 1;
        }
        proof {
            if i < n {
                assert(rep[i as int] == (snap@[i as int].0@, snap@[i as int].1@));
            }
            assert forall|j: int|
                0 <= j < i implies !(is_prefix_of(pv, (#[trigger] rep[j]).0) && rep[j].0
                != dek_key()) by {
                if is_prefix_of(pv, rep[j].0) {
                    crate::order::lemma_prefix_not_below(pv, rep[j].0);
                    crate::order::lemma_lex_connex(rep[j].0, pv);
                }
            }
            lemma_scan_entries_stable(rep.take(i as int), pv, 0);
            assert(rep.take(i as int).take(0) =~= Seq::<(Seq<u8>, Seq<u8>)>::empty());
        }
        let ghost gstart = i as int;
        let mut out: Vec<(String, String)> = Vec::new();
        while i < n
            invariant
                self.wf(),
                rep == self.engine.rep(),
                snap@.map_values(|q: (Vec<u8>, Vec<u8>)| (q.0@, q.1@)) == rep,
                pv == p@,
                p@ == encode_utf8(key@),
                dkb@ == dek_key(),
                n == snap@.len(),
                rep.len() == n,
                0 <= gstart <= i <= n,
                gstart == n || !lex_lt(rep[gstart].0, pv),
                ({
                    let pe = scan_entries(rep.take(i as int), pv);
                    let dek = self.dek_spec();
                    out@.len() == pe.len() && forall|m: int|
                        0 <= m < pe.len() ==> {
                            &&& valid_utf8((#[trigger] pe[m]).0)
                            &&& out@[m].0@ == decode_utf8(pe[m].0)
                            &&& stored_plain(dek, pe[m].1) is Some
                            &&& valid_utf8(stored_plain(dek, pe[m].1)->0)
                            &&& out@[m].1@ == decode_utf8(stored_plain(dek, pe[m].1)->0)
                        }
                }),
            decreases n - i,
        {
            proof {
                assert(rep[i as int] == (snap@[i as int].0@, snap@[i as int].1@));
                assert(rep.take(i + 1).drop_last() =~= rep.take(i as int));
                assert(rep.take(i + 1).last() == rep[i as int]);
            }
            if !has_prefix(&p, &snap[i].0) {
                proof {
                    lemma_break_sound(rep, pv, gstart, i as int);
                    lemma_scan_entries_stable(rep, pv, i as int);
                }
                return Ok(out);
            }
            if matches!(compare_bytes(&snap[i].0, &dkb), KeyOrder::Equal) {
                proof {
                    assert(scan_entries(rep.take(i + 1), pv) =~= scan_entries(
                        rep.take(i as int),
                        pv,
                    ));
                }
            } else {
                proof {
                    let pe_i = scan_entries(rep.take(i + 1), pv);
                    assert(pe_i =~= scan_entries(rep.take(i as int), pv) + seq![rep[i as int]]);
                    lemma_scan_entries_prefix_of(rep, pv, i + 1);
                    let w = scan_entries(rep.take(i as int), pv).len() as int;
                    assert(scan_entries(rep, pv)[w] == pe_i[w]);
                    assert(pe_i[w] == rep[i as int]);
                }
                let ks = match bytes_to_string(snap[i].0.clone()) {
                    Ok(s) => s,
                    Err(_) => {
                        return Err(StorageError::ConversionError);
                    },
                };
                let plain = if let Some(dk) = &self.dek {
                    match unseal_with_password(dk, &snap[i].1) {
                        Ok(pb) => pb,
                        Err(_) => {
                            return Err(StorageError::FailedToDecryptData);
                        },
                    }
                } else {
                    snap[i].1.clone()
                };
                let vs = match bytes_to_string(plain) {
                    Ok(s) => s,
                    Err(_) => {
                        return Err(StorageError::ConversionError);
                    },
                };
                out.push((ks, vs));
                proof {
                    assert(scan_entries(rep.take(i + 1), pv) =~= scan_entries(
                        rep.take(i as int),
                        pv,
                    ) + seq![rep[i as int]]);
                }
            }
            i = i + 1;
        }
        proof {
            assert(rep.take(n as int) =~= rep);
        }
        Ok(out)
    }

    /// Produce a backup: the first buffer is the encrypted backup stream, the
    /// second the sidecar wrapping the fresh backup key under the passphrase.
    /// The stream's plaintext is the framed record payload of every user
    /// entry, in ascending key order; the reserved entry is not exported.
    /// The embedding application writes the two buffers to their files.
    pub fn backup(&self, password: &str) -> (r: Result<(Vec<u8>, Vec<u8>), StorageError>)
        requires
            self.wf(),
        ensures
            !self.password_policy.allows(password@) ==> r == Err::<(Vec<u8>, Vec<u8>), StorageError>(
                StorageError::WeakPassword(self.password_policy),
            ),
            self.password_policy.allows(password@) ==> match r {
                Ok(pair) => exists|bdk: Seq<u8>|
                    {
                        &&& bdk.len() == 32
                        &&& #[trigger] sealed_open(encode_utf8(password@), pair.1@) == Some(bdk)
                        &&& stream_open_of(hex_of(bdk), pair.0@) == Some(
                            encode_records(scan_entries(self.engine.rep(), Seq::empty())),
                        )
                    },
                Err(e) => e == StorageError::RandomDekGenerationError || e
                    == StorageError::IoError,
            },
    {
        if !self.password_policy.is_valid(password) {
            return Err(StorageError::WeakPassword(self.password_policy.clone()));
        }
        let ghost rep = self.engine.rep();
        let snap = self.engine.snapshot();
        let dkb = dek_key_bytes();
        let n = snap.len();
        let mut entries: Vec<(Vec<u8>, Vec<u8>)> = Vec::new();
        let mut i: usize = 0;
        while i < n
            invariant
                self.wf(),
                rep == self.engine.rep(),
                snap@.map_values(|q: (Vec<u8>, Vec<u8>)| (q.0@, q.1@)) == rep,
                dkb@ == dek_key(),
                n == snap@.len(),
                rep.len() == n,
                i <= n,
                entries_view(entries@) =~= scan_entries(rep.take(i as int), Seq::empty()),
            decreases n - i,
        {
            proof {
                assert(rep[i as int] == (snap@[i as int].0@, snap@[i as int].1@));
                assert(rep.take(i + 1).drop_last() =~= rep.take(i as int));
                assert(rep.take(i + 1).last() == rep[i as int]);
                assert(is_prefix_of(Seq::empty(), rep[i as int].0)) by {
                    assert(rep[i as int].0.take(0) =~= Seq::<u8>::empty());
                }
            }
            if !matches!(compare_bytes(&snap[i].0, &dkb), KeyOrder::Equal) {
                let ghost prev = entries@;
                entries.push((snap[i].0.clone(), snap[i].1.clone()));
                proof {
                    assert(entries_view(entries@) =~= entries_view(prev).push(
                        (rep[i as int].0, rep[i as int].1),
                    ));
                    assert(scan_entries(rep.take(i + 1), Seq::empty()) =~= scan_entries(
                        rep.take(i as int),
                        Seq::empty(),
                    ) + seq![rep[i as int]]);
                }
            } else {
                proof {
                    assert(scan_entries(rep.take(i + 1), Seq::empty()) =~= scan_entries(
                        rep.take(i as int),
                        Seq::empty(),
                    ));
                }
            }
            i = i + 1;
        }
        proof {
            assert(rep.take(n as int) =~= rep);
        }
        let payload = encode_payload(&entries);
        let bdk = match generate_key_bytes() {
            Ok(bdk) => bdk,
            Err(_) => {
                return Err(StorageError::RandomDekGenerationError);
            },
        };
        let pwb = password.as_bytes_vec();
        let sidecar = match seal_with_password(&pwb, &bdk) {
            Ok(sc) => sc,
            Err(_) => {
                return Err(StorageError::FailedToEncryptData);
            },
        };
        let passhex = hex_encode(&bdk);
        let backup_bytes = match stream_encrypt(&passhex, &payload) {
            Ok(b) => b,
            Err(_) => {
                return Err(StorageError::IoError);
            },
        };
        proof {
            assert(sealed_open(encode_utf8(password@), sidecar@) == Some(bdk@));
            assert(stream_open_of(hex_of(bdk@), backup_bytes@) == Some(
                encode_records(scan_entries(self.engine.rep(), Seq::empty())),
            ));
        }
        Ok((backup_bytes, sidecar))
    }

    /// Restore a backup into this store: unwrap the backup key from the
    /// sidecar, decrypt the stream, decode the framed records, and store each
    /// pair verbatim (values are not re-encrypted), atomically — on any
    /// failure the contents are untouched.
    pub fn restore_backup(&mut self, backup_bytes: &Vec<u8>, sidecar: &Vec<u8>, password: &str)
        -> (r: Result<(), StorageError>)
        requires
            old(self).wf(),
        ensures
            final(self).wf(),
            final(self).dek == old(self).dek,
            final(self).password_policy == old(self).password_policy,
            final(self).registry@ == old(self).registry@,
            r is Err ==> final(self).contents() == old(self).contents(),
            ({
                let pwb = encode_utf8(password@);
                match sealed_open(pwb, sidecar@) {
                    None => r == Err::<(), StorageError>(StorageError::WrongPassword),
                    Some(bdk) => match stream_open_of(hex_of(bdk), backup_bytes@) {
                        None => r == Err::<(), StorageError>(StorageError::FailedToDecryptData),
                        Some(payload) => match parse_records(payload) {
                            None => r == Err::<(), StorageError>(StorageError::ConversionError),
                            Some(es) => r is Ok && final(self).contents() =~= puts_applied(
                                old(self).contents(),
                                es,
                            ),
                        },
                    },
                }
            }),
    {
        let pwb = password.as_bytes_vec();
        let bdk = match unseal_with_password(&pwb, sidecar) {
            Ok(bdk) => bdk,
            Err(_) => {
                return Err(StorageError::WrongPassword);
            },
        };
        let passhex = hex_encode(&bdk);
        let payload = match stream_decrypt(&passhex, backup_bytes) {
            Ok(p) => p,
            Err(_) => {
                return Err(StorageError::FailedToDecryptData);
            },
        };
        let entries = match decode_payload(&payload) {
            Some(entries) => entries,
            None => {
                return Err(StorageError::ConversionError);
            },
        };
        let ghost base = self.contents();
        let ghost es = entries_view(entries@);
        let n = entries.len();
        let mut i: usize = 0;
        while i < n
            invariant
                self.dek == old(self).dek,
                self.password_policy == old(self).password_policy,
                self.registry == old(self).registry,
                self.engine.inv(),
                self.registry.inv(),
                base == old(self).contents(),
                es == entries_view(entries@),
                n == entries@.len(),
                i <= n,
                self.contents() =~= puts_applied(base, es.take(i as int)),
            decreases n - i,
        {
            proof {
                assert(es[i as int] == (entries@[i as int].0@, entries@[i as int].1@));
                assert(es.take(i + 1).drop_last() =~= es.take(i as int));
                assert(es.take(i + 1).last() == es[i as int]);
            }
            let k = entries[i].0.clone();
            let v = entries[i].1.clone();
            self.engine.put(k, v);
            i = i + 1;
        }
        proof {
            assert(es.take(n as int) =~= es);
        }
        Ok(())
    }

    /// Rotate the passphrase protecting a backup sidecar: unwrap the backup
    /// key with the old passphrase and wrap the same key under the new one,
    /// yielding the replacement sidecar bytes. The backup stream itself is
    /// untouched.
    pub fn change_backup_password(
        &self,
        sidecar: &Vec<u8>,
        old_password: &str,
        new_password: &str,
    ) -> (r: Result<Vec<u8>, StorageError>)
        ensures
            !self.password_policy.allows(new_password@) ==> r == Err::<Vec<u8>, StorageError>(
                StorageError::WeakPassword(self.password_policy),
            ),
            self.password_policy.allows(new_password@) && sealed_open(
                encode_utf8(old_password@),
                sidecar@,
            ) is None ==> r == Err::<Vec<u8>, StorageError>(StorageError::WrongPassword),
            self.password_policy.allows(new_password@) && sealed_open(
                encode_utf8(old_password@),
                sidecar@,
            ) is Some ==> match r {
                Ok(out) => sealed_open(encode_utf8(new_password@), out@) == sealed_open(
                    encode_utf8(old_password@),
                    sidecar@,
                ),
                Err(e) => e == StorageError::FailedToEncryptData && sealed_open(
                    encode_utf8(old_password@),
                    sidecar@,
                )->0.len() >= SEAL_PAYLOAD_BOUND,
            },
    {
        if !self.password_policy.is_valid(new_password) {
            return Err(StorageError::WeakPassword(self.password_policy.clone()));
        }
        let old_pwb = old_password.as_bytes_vec();
        let dk = match unseal_with_password(&old_pwb, sidecar) {
            Ok(dk) => dk,
            Err(_) => {
                return Err(StorageError::WrongPassword);
            },
        };
        let new_pwb = new_password.as_bytes_vec();
        match seal_with_password(&new_pwb, &dk) {
            Ok(out) => Ok(out),
            Err(_) => Err(StorageError::FailedToEncryptData),
        }
    }

    /// Start a named transaction: its writes and deletes are buffered under
    /// the returned handle and touch nothing until commit.
    pub fn begin_transaction(&mut self) -> (h: TransactionHandle)
        requires
            old(self).wf(),
        ensures
            final(self).wf(),
            final(self).engine == old(self).engine,
            final(self).dek == old(self).dek,
            final(self).password_policy == old(self).password_policy,
            final(self).registry@ =~= old(self).registry@.insert(h, Seq::empty()),
    {
        self.registry.begin()
    }

    /// Buffer a write under a live transaction, sealing the value first in
    /// encrypted mode. The stored contents do not change.
    pub fn transactional_write(&mut self, key: &str, value: &str, transaction_id:
        TransactionHandle) -> (r: Result<(), StorageError>)
        requires
            old(self).wf(),
        ensures
            final(self).wf(),
            final(self).engine == old(self).engine,
            final(self).dek == old(self).dek,
            final(self).password_policy == old(self).password_policy,
            !old(self).registry@.contains_key(transaction_id) ==> r == Err::<(), StorageError>(
                StorageError::NotFound(NotFoundWhat::Transaction),
            ) && final(self).registry@ == old(self).registry@,
            old(self).registry@.contains_key(transaction_id) ==> match r {
                Ok(_) => {
                    let ops = final(self).registry@[transaction_id];
                    &&& final(self).registry@ =~= old(self).registry@.insert(transaction_id, ops)
                    &&& ops.len() == old(self).registry@[transaction_id].len() + 1
                    &&& ops =~= old(self).registry@[transaction_id].push(ops.last())
                    &&& ops.last().0 == encode_utf8(key@)
                    &&& ops.last().1 is Some
                    &&& stored_plain(old(self).dek_spec(), ops.last().1->0) == Some(
                        encode_utf8(value@),
                    )
                },
                Err(e) => e == StorageError::FailedToEncryptData && old(self).is_encrypted()
                    && final(self).registry@ == old(self).registry@ && encode_utf8(
                    value@,
                ).len() >= SEAL_PAYLOAD_BOUND,
            },
    {
        if !self.registry.contains(transaction_id) {
            return Err(StorageError::NotFound(NotFoundWhat::Transaction));
        }
        let kb = key.as_bytes_vec();
        let vb = value.as_bytes_vec();
        let data = if let Some(dk) = &self.dek {
            match seal_with_password(dk, &vb) {
                Ok(env) => env,
                Err(_) => {
                    return Err(StorageError::FailedToEncryptData);
                },
            }
        } else {
            vb
        };
        let op = crate::registry::TxOp::Put(kb, data);
        match self.registry.append_op(transaction_id, op) {
            Ok(_) => Ok(()),
            Err(_) => {
                proof {
                    assert(false);
                }
                Err(StorageError::NotFound(NotFoundWhat::Transaction))
            },
        }
    }

    /// Buffer a delete under a live transaction. The stored contents do not
    /// change.
    pub fn transactional_delete(&mut self, key: &str, transaction_id: TransactionHandle) -> (r:
        Result<(), StorageError>)
        requires
            old(self).wf(),
        ensures
            final(self).wf(),
            final(self).engine == old(self).engine,
            final(self).dek == old(self).dek,
            final(self).password_policy == old(self).password_policy,
            !old(self).registry@.contains_key(transaction_id) ==> r == Err::<(), StorageError>(
                StorageError::NotFound(NotFoundWhat::Transaction),
            ) && final(self).registry@ == old(self).registry@,
            old(self).registry@.contains_key(transaction_id) ==> r is Ok && final(self).registry@
                =~= old(self).registry@.insert(
                transaction_id,
                old(self).registry@[transaction_id].push((encode_utf8(key@), None)),
            ),
    {
        let kb = key.as_bytes_vec();
        let op = crate::registry::TxOp::Delete(kb);
        match self.registry.append_op(transaction_id, op) {
            Ok(_) => Ok(()),
            Err(_) => Err(StorageError::NotFound(NotFoundWhat::Transaction)),
        }
    }

    /// Commit a live transaction: apply its buffered operations to the
    /// contents, in issue order, and retire the handle.
    pub fn commit_transaction(&mut self, transaction_id: TransactionHandle) -> (r: Result<
        (),
        StorageError,
    >)
        requires
            old(self).wf(),
        ensures
            final(self).wf(),
            final(self).dek == old(self).dek,
            final(self).password_policy == old(self).password_policy,
            r is Ok <==> old(self).registry@.contains_key(transaction_id),
            r is Ok ==> final(self).contents() =~= apply_ops(
                old(self).contents(),
                old(self).registry@[transaction_id],
            ) && final(self).registry@ =~= old(self).registry@.remove(transaction_id),
            r is Err ==> r == Err::<(), StorageError>(
                StorageError::NotFound(NotFoundWhat::Transaction),
            ) && final(self).engine == old(self).engine && final(self).registry@ == old(self).registry@,
    {
        let ops = match self.registry.remove(transaction_id) {
            Ok(ops) => ops,
            Err(_) => {
                return Err(StorageError::NotFound(NotFoundWhat::Transaction));
            },
        };
        let ghost base = self.contents();
        let ghost opsv = crate::registry::ops_view(ops@);
        let n = ops.len();
        let mut i: usize = 0;
        while i < n
            invariant
                self.dek == old(self).dek,
                self.password_policy == old(self).password_policy,
                self.engine.inv(),
                self.registry.inv(),
                self.registry@ =~= old(self).registry@.remove(transaction_id),
                base == old(self).contents(),
                opsv == old(self).registry@[transaction_id],
                n == ops@.len(),
                i <= n,
                opsv == crate::registry::ops_view(ops@),
                self.contents() =~= apply_ops(base, opsv.take(i as int)),
            decreases n - i,
        {
            proof {
                assert(opsv[i as int] == ops@[i as int].view_op());
                assert(opsv.take(i + 1).drop_last() =~= opsv.take(i as int));
                assert(opsv.take(i + 1).last() == opsv[i as int]);
            }
            match &ops[i] {
                crate::registry::TxOp::Put(k, v) => {
                    self.engine.put(k.clone(), v.clone());
                },
                crate::registry::TxOp::Delete(k) => {
                    self.engine.delete(k);
                },
            }
            i = i + 1;
        }
        proof {
            assert(opsv.take(n as int) =~= opsv);
        }
        Ok(())
    }

    /// Abandon a live transaction: its buffered operations are discarded and
    /// the handle retired. The stored contents never change.
    pub fn rollback_transaction(&mut self, transaction_id: TransactionHandle) -> (r: Result<
        (),
        StorageError,
    >)
        requires
            old(self).wf(),
        ensures
            final(self).wf(),
            final(self).engine == old(self).engine,
            final(self).dek == old(self).dek,
            final(self).password_policy == old(self).password_policy,
            r is Ok <==> old(self).registry@.contains_key(transaction_id),
            r is Ok ==> final(self).registry@ =~= old(self).registry@.remove(transaction_id),
            r is Err ==> r == Err::<(), StorageError>(
                StorageError::NotFound(NotFoundWhat::Transaction),
            ) && final(self).registry@ == old(self).registry@,
    {
        match self.registry.remove(transaction_id) {
            Ok(_) => Ok(()),
            Err(_) => Err(StorageError::NotFound(NotFoundWhat::Transaction)),
        }
    }
}

/// Buffered operations applied to a contents map, in issue order: a `Some`
/// value stores, a `None` removes.
pub open spec fn apply_ops(
    m: Map<Seq<u8>, Seq<u8>>,
    ops: Seq<(Seq<u8>, Option<Seq<u8>>)>,
) -> Map<Seq<u8>, Seq<u8>>
    decreases ops.len(),
{
    if ops.len() == 0 {
        m
    } else {
        let m2 = apply_ops(m, ops.drop_last());
        match ops.last().1 {
            Some(v) => m2.insert(ops.last().0, v),
            None => m2.remove(ops.last().0),
        }
    }
}

/// At the first non-matching key at or above the prefix, everything later is
/// non-matching too.
proof fn lemma_break_sound(rep: Seq<(Seq<u8>, Seq<u8>)>, p: Seq<u8>, gstart: int, b: int)
    requires
        crate::engine::strict_sorted(rep),
        0 <= gstart <= b < rep.len(),
        gstart == rep.len() || !lex_lt(rep[gstart].0, p),
        !is_prefix_of(p, rep[b].0),
    ensures
        forall|j: int|
            b <= j < rep.len() ==> !(is_prefix_of(p, (#[trigger] rep[j]).0) && rep[j].0
                != dek_key()),
{
    assert(is_prefix_of(p, p)) by {
        assert(p.take(p.len() as int) =~= p);
    }
    assert forall|j: int|
        b <= j < rep.len() implies !(is_prefix_of(p, (#[trigger] rep[j]).0) && rep[j].0
            != dek_key()) by {
        if is_prefix_of(p, rep[j].0) {
            assert(j != b);
            // p <= rep[gstart].0 <= rep[b].0 <= rep[j].0, so the prefix range
            // would have to include rep[b].0.
            crate::order::lemma_lex_connex(rep[gstart].0, p);
            if gstart < b {
                crate::order::lemma_lex_lt_trans(rep[gstart].0, rep[b].0, rep[j].0);
                if lex_lt(p, rep[gstart].0) {
                    crate::order::lemma_lex_lt_trans(p, rep[gstart].0, rep[b].0);
                }
            }
            crate::order::lemma_prefix_range_contiguous(p, p, rep[b].0, rep[j].0);
        }
    }
}

/// A scan over a front part is a front part of the scan.
proof fn lemma_scan_entries_prefix_of(rep: Seq<(Seq<u8>, Seq<u8>)>, p: Seq<u8>, i: int)
    requires
        0 <= i <= rep.len(),
    ensures
        scan_entries(rep.take(i), p).len() <= scan_entries(rep, p).len(),
        forall|m: int|
            0 <= m < scan_entries(rep.take(i), p).len() ==> (#[trigger] scan_entries(rep, p)[m])
                == scan_entries(rep.take(i), p)[m],
    decreases rep.len() - i,
{
    if i == rep.len() {
        assert(rep.take(i) =~= rep);
    } else {
        lemma_scan_entries_prefix_of(rep, p, i + 1);
        assert(rep.take(i + 1).drop_last() =~= rep.take(i));
        assert(rep.take(i + 1).last() == rep[i]);
    }
}

/// Whether `a` sorts strictly below `b`.
fn is_below(a: &Vec<u8>, b: &Vec<u8>) -> (r: bool)
    ensures
        r == lex_lt(a@, b@),
{
    matches!(compare_bytes(a, b), KeyOrder::Less)
}

/// Whether `k` starts with `p`.
pub fn has_prefix(p: &Vec<u8>, k: &Vec<u8>) -> (r: bool)
    ensures
        r == is_prefix_of(p@, k@),
{
    let plen = p.len();
    if plen > k.len() {
        return false;
    }
    let mut j: usize = 0;
    while j < plen
        invariant
            j <= plen,
            plen == p@.len(),
            plen <= k@.len(),
            forall|m: int| 0 <= m < j ==> p@[m] == k@[m],
        decreases plen - j,
    {
        if p[j] != k[j] {
            proof {
                assert(k@.take(plen as int)[j as int] != p@[j as int]);
            }
            return false;
        }
        j = j + 1;
    }
    proof {
        assert(k@.take(plen as int) =~= p@);
    }
    true
}

} // verus!
