//! The encryption algorithms a volume can name. Both currently store data
//! as it is.
use crate::error::FsError;
use vstd::prelude::*;

verus! {

pub trait EncryptionAlgorithm {
    /// The number that names the algorithm on disk.
    spec fn spec_id(&self) -> u8;

    fn id(&self) -> (r: u8)
        ensures
            r == self.spec_id(),
    ;

    /// What the algorithm makes of `data` under `key` and `iv`.
    spec fn spec_encrypt(&self, key: Seq<u8>, data: Seq<u8>, iv: Seq<u8>) -> Seq<u8>;

    /// What the algorithm restores from `data` under `key` and `iv`.
    spec fn spec_decrypt(&self, key: Seq<u8>, data: Seq<u8>, iv: Seq<u8>) -> Seq<u8>;

    fn encrypt(&self, key: &[u8], data: &[u8], iv: &[u8]) -> (r: Result<Vec<u8>, FsError>)
        ensures
            r matches Ok(v) ==> v@ == self.spec_encrypt(key@, data@, iv@),
    ;

    fn decrypt(&self, key: &[u8], data: &[u8], iv: &[u8]) -> (r: Result<Vec<u8>, FsError>)
        ensures
            r matches Ok(v) ==> v@ == self.spec_decrypt(key@, data@, iv@),
    ;
}

pub struct Aes256Gcm;

impl EncryptionAlgorithm for Aes256Gcm {
    open spec fn spec_id(&self) -> u8 {
        1
    }

    fn id(&self) -> (r: u8) {
        1
    }

    /// Data is stored as it is.
    open spec fn spec_encrypt(&self, key: Seq<u8>, data: Seq<u8>, iv: Seq<u8>) -> Seq<u8> {
        data
    }

    open spec fn spec_decrypt(&self, key: Seq<u8>, data: Seq<u8>, iv: Seq<u8>) -> Seq<u8> {
        data
    }

    fn encrypt(&self, _key: &[u8], data: &[u8], _iv: &[u8]) -> (r: Result<Vec<u8>, FsError>)
        ensures
            r is Ok,
    {
        Ok(vstd::slice::slice_to_vec(data))
    }

    fn decrypt(&self, _key: &[u8], data: &[u8], _iv: &[u8]) -> (r: Result<Vec<u8>, FsError>)
        ensures
            r is Ok,
    {
        Ok(vstd::slice::slice_to_vec(data))
    }
}

pub struct ChaCha20Poly1305;

impl EncryptionAlgorithm for ChaCha20Poly1305 {
    open spec fn spec_id(&self) -> u8 {
        2
    }

    fn id(&self) -> (r: u8) {
        2
    }

    /// Data is stored as it is.
    open spec fn spec_encrypt(&self, key: Seq<u8>, data: Seq<u8>, iv: Seq<u8>) -> Seq<u8> {
        data
    }

    open spec fn spec_decrypt(&self, key: Seq<u8>, data: Seq<u8>, iv: Seq<u8>) -> Seq<u8> {
        data
    }

    fn encrypt(&self, _key: &[u8], data: &[u8], _iv: &[u8]) -> (r: Result<Vec<u8>, FsError>)
        ensures
            r is Ok,
    {
        Ok(vstd::slice::slice_to_vec(data))
    }

    fn decrypt(&self, _key: &[u8], data: &[u8], _iv: &[u8]) -> (r: Result<Vec<u8>, FsError>)
        ensures
            r is Ok,
    {
        Ok(vstd::slice::slice_to_vec(data))
    }
}

pub struct EncryptionManager;

impl EncryptionManager {
    /// The algorithm named `id`: 1 and 2 are known.
    pub fn get_algorithm(id: u8) -> (r: Option<Box<dyn EncryptionAlgorithm>>)
        ensures
            r is Some <==> (id == 1 || id == 2),
            r matches Some(a) ==> a.spec_id() == id,
    {
        match id {
            1 => Some(Box::new(Aes256Gcm)),
            2 => Some(Box::new(ChaCha20Poly1305)),
            _ => None,
        }
    }
}

} // verus!
