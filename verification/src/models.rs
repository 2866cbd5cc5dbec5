//! Request and response bodies of the HTTP interface.
use vstd::prelude::*;

verus! {

pub struct CreateEngineRequest {
    pub id: String,
}

pub struct DefaultSuccessCreationResponse {
    pub success: bool,
    pub message: String,
}

pub struct CreateCollectionRequest {
    pub collection_name: String,
    pub index_type: Option<String>,
}

pub struct DeleteCollectionRequest {
    pub collection_name: String,
}

pub struct GetCollectionRequest {
    pub collection_name: String,
}

} // verus!
