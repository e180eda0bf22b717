//! The compression algorithms a volume can name. All of them currently
//! store data as it is.
use crate::error::FsError;
use vstd::prelude::*;

verus! {

pub trait CompressionAlgorithm {
    spec fn spec_id(&self) -> u8;

    fn id(&self) -> (r: u8)
        ensures
            r == self.spec_id(),
    ;

    /// What the algorithm makes of `data`.
    spec fn spec_compress(&self, data: Seq<u8>) -> Seq<u8>;

    /// What the algorithm restores from `data`.
    spec fn spec_decompress(&self, data: Seq<u8>) -> Seq<u8>;

    fn compress(&self, data: &[u8]) -> (r: Result<Vec<u8>, FsError>)
        ensures
            r matches Ok(v) ==> v@ == self.spec_compress(data@),
    ;

    fn decompress(&self, data: &[u8], expected_size: usize) -> (r: Result<Vec<u8>, FsError>)
        ensures
            r matches Ok(v) ==> v@ == self.spec_decompress(data@),
    ;
}

pub struct Lz4;

impl CompressionAlgorithm for Lz4 {
    open spec fn spec_id(&self) -> u8 {
        1
    }

    fn id(&self) -> (r: u8) {
        1
    }

    /// Data is stored as it is.
    open spec fn spec_compress(&self, data: Seq<u8>) -> Seq<u8> {
        data
    }

    open spec fn spec_decompress(&self, data: Seq<u8>) -> Seq<u8> {
        data
    }

    fn compress(&self, data: &[u8]) -> (r: Result<Vec<u8>, FsError>)
        ensures
            r is Ok,
    {
        Ok(vstd::slice::slice_to_vec(data))
    }

    fn decompress(&self, data: &[u8], _expected_size: usize) -> (r: Result<Vec<u8>, FsError>)
        ensures
            r is Ok,
    {
        Ok(vstd::slice::slice_to_vec(data))
    }
}

pub struct Zstd;

impl CompressionAlgorithm for Zstd {
    open spec fn spec_id(&self) -> u8 {
        2
    }

    fn id(&self) -> (r: u8) {
        2
    }

    /// Data is stored as it is.
    open spec fn spec_compress(&self, data: Seq<u8>) -> Seq<u8> {
        data
    }

    open spec fn spec_decompress(&self, data: Seq<u8>) -> Seq<u8> {
        data
    }

    fn compress(&self, data: &[u8]) -> (r: Result<Vec<u8>, FsError>)
        ensures
            r is Ok,
    {
        Ok(vstd::slice::slice_to_vec(data))
    }

    fn decompress(&self, data: &[u8], _expected_size: usize) -> (r: Result<Vec<u8>, FsError>)
        ensures
            r is Ok,
    {
        Ok(vstd::slice::slice_to_vec(data))
    }
}

pub struct Deflate;

impl CompressionAlgorithm for Deflate {
    open spec fn spec_id(&self) -> u8 {
        3
    }

    fn id(&self) -> (r: u8) {
        3
    }

    /// Data is stored as it is.
    open spec fn spec_compress(&self, data: Seq<u8>) -> Seq<u8> {
        data
    }

    open spec fn spec_decompress(&self, data: Seq<u8>) -> Seq<u8> {
        data
    }

    fn compress(&self, data: &[u8]) -> (r: Result<Vec<u8>, FsError>)
        ensures
            r is Ok,
    {
        Ok(vstd::slice::slice_to_vec(data))
    }

    fn decompress(&self, data: &[u8], _expected_size: usize) -> (r: Result<Vec<u8>, FsError>)
        ensures
            r is Ok,
    {
        Ok(vstd::slice::slice_to_vec(data))
    }
}

pub struct CompressionManager;

impl CompressionManager {
    /// The algorithm named `id`: 1, 2 and 3 are known.
    pub fn get_algorithm(id: u8) -> (r: Option<Box<dyn CompressionAlgorithm>>)
        ensures
            r is Some <==> (1 <= id <= 3),
            r matches Some(a) ==> a.spec_id() == id,
    {
        match id {
            1 => Some(Box::new(Lz4)),
            2 => Some(Box::new(Zstd)),
            3 => Some(Box::new(Deflate)),
            _ => None,
        }
    }

    /// Compresses with LZ4 and keeps the result only when it is smaller;
    /// otherwise returns the data with algorithm 0 (stored as is).
    pub fn adaptive_compress(data: &[u8]) -> (r: Result<(u8, Vec<u8>), FsError>)
        ensures
            r matches Ok((id, v)) && id == 0 && v@ == data@,
    {
        let algo = Lz4;
        let compressed = match algo.compress(data) {
            Ok(c) => c,
            Err(e) => {
                return Err(e);
            },
        };
        if compressed.len() >= data.len() {
            Ok((0, vstd::slice::slice_to_vec(data)))
        } else {
            Ok((algo.id(), compressed))
        }
    }
}

} // verus!
