//! The stored form of file content: compressed bytes inline, or the ordered
//! digests of compressed chunks.
use crate::encoding::{
    at, frame, frame_list, lemma_at_concat, lemma_at_whole, push_frame, push_frame_list, read_byte,
    read_frame, read_frame_list,
};
use vstd::prelude::*;

verus! {

/// The ordered chunk digests of a large file.
#[derive(Debug, Clone)]
pub struct IndexData {
    pub path: Vec<Vec<u8>>,
}

#[derive(Debug, Clone)]
pub enum Blob {
    Normal(Vec<u8>),
    ChunksMap(IndexData),
}

/// The abstract content of a blob.
pub enum BlobV {
    Normal(Seq<u8>),
    Chunked(Seq<Seq<u8>>),
}

pub open spec fn bytes_views(v: Seq<Vec<u8>>) -> Seq<Seq<u8>> {
    v.map_values(|x: Vec<u8>| x@)
}

impl View for Blob {
    type V = BlobV;

    open spec fn view(&self) -> BlobV {
        match self {
            Blob::Normal(d) => BlobV::Normal(d@),
            Blob::ChunksMap(ix) => BlobV::Chunked(bytes_views(ix.path@)),
        }
    }
}

pub open spec fn blob_bytes(b: BlobV) -> Seq<u8> {
    match b {
        BlobV::Normal(d) => seq![0u8] + frame(d),
        BlobV::Chunked(hs) => seq![1u8] + frame_list(hs),
    }
}

impl Blob {
    /// The `Normal` form of already compressed bytes.
    pub fn encode_normal(compressed: Vec<u8>) -> (r: Vec<u8>)
        ensures
            r@ == blob_bytes(BlobV::Normal(compressed@)),
    {
        Blob::Normal(compressed).encode()
    }

    /// The `Chunked` form of an ordered list of chunk digests.
    pub fn encode_chunked(hashes: Vec<Vec<u8>>) -> (r: Vec<u8>)
        ensures
            r@ == blob_bytes(BlobV::Chunked(bytes_views(hashes@))),
    {
        Blob::ChunksMap(IndexData { path: hashes }).encode()
    }

    pub fn encode(&self) -> (r: Vec<u8>)
        ensures
            r@ == blob_bytes(self@),
    {
        let mut out: Vec<u8> = Vec::new();
        match self {
            Blob::Normal(d) => {
                out.push(0u8);
                push_frame(&mut out, d.as_slice());
            },
            Blob::ChunksMap(ix) => {
                out.push(1u8);
                push_frame_list(&mut out, &ix.path);
            },
        }
        assert(out@ =~= blob_bytes(self@));
        out
    }

    /// Decodes a stored blob; unknown tags and trailing bytes are rejected.
    pub fn decode(bytes: &[u8]) -> (r: Option<Blob>)
        ensures
            r matches Some(b) ==> blob_bytes(b@) == bytes@,
            forall|v: BlobV| blob_bytes(v) == bytes@ ==> (r is Some && r->0@ == v),
    {
        let ghost bs = bytes@;
        proof {
            assert forall|v: BlobV| blob_bytes(v) == bs implies at(bs, 0, seq![blob_bytes(v)[0]]) && at(
                bs,
                1,
                blob_bytes(v).subrange(1, blob_bytes(v).len() as int),
            ) by {
                let e = blob_bytes(v);
                lemma_at_whole(bs);
                assert(e =~= seq![e[0]] + e.subrange(1, e.len() as int));
                lemma_at_concat(bs, 0, seq![e[0]], e.subrange(1, e.len() as int));
            }
        }
        let (tag, p) = match read_byte(bytes, 0) {
            Some(x) => x,
            None => {
                proof {
                    assert forall|v: BlobV| blob_bytes(v) != bs by {
                        if blob_bytes(v) == bs {
                            assert(at(bs, 0, seq![blob_bytes(v)[0]]));
                        }
                    }
                }
                return None;
            },
        };
        if tag == 0 {
            match read_frame(bytes, p) {
                Some((d, q)) => {
                    if q == bytes.len() {
                        let r = Blob::Normal(d);
                        proof {
                            assert(bs.subrange(0, 1) =~= seq![0u8]);
                            assert(bs =~= seq![0u8] + frame(d@));
                            assert forall|v: BlobV| blob_bytes(v) == bs implies r@ == v by {
                                let e = blob_bytes(v);
                                assert(e[0] == 0u8);
                                if let BlobV::Normal(x) = v {
                                    assert(e.subrange(1, e.len() as int) =~= frame(x));
                                }
                            }
                        }
                        Some(r)
                    } else {
                        proof {
                            assert forall|v: BlobV| blob_bytes(v) != bs by {
                                if blob_bytes(v) == bs {
                                    let e = blob_bytes(v);
                                    assert(at(bs, 0, seq![e[0]]));
                                    assert(e[0] == 0u8);
                                    if let BlobV::Normal(x) = v {
                                        assert(e.subrange(1, e.len() as int) =~= frame(x));
                                    }
                                }
                            }
                        }
                        None
                    }
                },
                None => {
                    proof {
                        assert forall|v: BlobV| blob_bytes(v) != bs by {
                            if blob_bytes(v) == bs {
                                let e = blob_bytes(v);
                                assert(at(bs, 0, seq![e[0]]));
                                assert(e[0] == 0u8);
                                if let BlobV::Normal(x) = v {
                                    assert(e.subrange(1, e.len() as int) =~= frame(x));
                                }
                            }
                        }
                    }
                    None
                },
            }
        } else if tag == 1 {
            match read_frame_list(bytes, p) {
                Some((hs, q)) => {
                    if q == bytes.len() {
                        let r = Blob::ChunksMap(IndexData { path: hs });
                        proof {
                            assert(bs.subrange(0, 1) =~= seq![1u8]);
                            assert(bs =~= seq![1u8] + frame_list(bytes_views(hs@)));
                            assert forall|v: BlobV| blob_bytes(v) == bs implies r@ == v by {
                                let e = blob_bytes(v);
                                assert(e[0] == 1u8);
                                if let BlobV::Chunked(x) = v {
                                    assert(e.subrange(1, e.len() as int) =~= frame_list(x));
                                }
                            }
                        }
                        Some(r)
                    } else {
                        proof {
                            assert forall|v: BlobV| blob_bytes(v) != bs by {
                                if blob_bytes(v) == bs {
                                    let e = blob_bytes(v);
                                    assert(at(bs, 0, seq![e[0]]));
                                    assert(e[0] == 1u8);
                                    if let BlobV::Chunked(x) = v {
                                        assert(e.subrange(1, e.len() as int) =~= frame_list(x));
                                    }
                                }
                            }
                        }
                        None
                    }
                },
                None => {
                    proof {
                        assert forall|v: BlobV| blob_bytes(v) != bs by {
                            if blob_bytes(v) == bs {
                                let e = blob_bytes(v);
                                assert(at(bs, 0, seq![e[0]]));
                                assert(e[0] == 1u8);
                                if let BlobV::Chunked(x) = v {
                                    assert(e.subrange(1, e.len() as int) =~= frame_list(x));
                                }
                            }
                        }
                    }
                    None
                },
            }
        } else {
            proof {
                assert forall|v: BlobV| blob_bytes(v) != bs by {
                    if blob_bytes(v) == bs {
                        let e = blob_bytes(v);
                        assert(at(bs, 0, seq![e[0]]));
                    }
                }
            }
            None
        }
    }
}

} // verus!
