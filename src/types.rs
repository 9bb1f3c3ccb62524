use vstd::prelude::*;

verus! {

/// One emitted chunk record.
pub struct ChunkData {
    pub id: String,
    pub file_path: String,
    pub language: String,
    pub chunk_type: String,
    pub chunk_name: String,
    pub context: String,
    pub signature: String,
    pub comment: String,
    pub code: String,
    pub start_line: usize,
    pub end_line: usize,
    pub token_count: usize,
}

/// The contents of a chunk record.
pub struct ChunkModel {
    pub id: Seq<char>,
    pub file_path: Seq<char>,
    pub language: Seq<char>,
    pub chunk_type: Seq<char>,
    pub chunk_name: Seq<char>,
    pub context: Seq<char>,
    pub signature: Seq<char>,
    pub comment: Seq<char>,
    pub code: Seq<char>,
    pub start_line: nat,
    pub end_line: nat,
    pub token_count: nat,
}

impl View for ChunkData {
    type V = ChunkModel;

    open spec fn view(&self) -> ChunkModel {
        ChunkModel {
            id: self.id@,
            file_path: self.file_path@,
            language: self.language@,
            chunk_type: self.chunk_type@,
            chunk_name: self.chunk_name@,
            context: self.context@,
            signature: self.signature@,
            comment: self.comment@,
            code: self.code@,
            start_line: self.start_line as nat,
            end_line: self.end_line as nat,
            token_count: self.token_count as nat,
        }
    }
}

pub open spec fn chunk_views(v: Seq<ChunkData>) -> Seq<ChunkModel> {
    v.map_values(|c: ChunkData| c@)
}

} // verus!
