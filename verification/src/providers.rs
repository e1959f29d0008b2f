//! What a provider is asked and what it answers.
use vstd::prelude::*;

use crate::text;

verus! {

/// The parameters of a provider call.
pub struct ProviderParams {
    pub state: Option<String>,
    pub limit: Option<usize>,
}

/// One item of a provider's answer.
#[derive(Debug)]
pub struct ProviderItem {
    pub id: String,
    pub title: String,
    pub state: Option<String>,
    pub author: Option<String>,
    pub created_at: Option<String>,
    pub updated_at: Option<String>,
    pub url: Option<String>,
    pub labels: Vec<String>,
    pub body: Option<String>,
}

/// A provider's answer.
#[derive(Debug)]
pub struct ProviderResult {
    pub provider: String,
    pub resource_type: String,
    pub items: Vec<ProviderItem>,
    pub total_count: Option<usize>,
    pub truncated: bool,
}

/// The meaning of a [`ProviderItem`].
pub struct ItemModel {
    pub id: Seq<char>,
    pub title: Seq<char>,
    pub state: Option<Seq<char>>,
    pub author: Option<Seq<char>>,
    pub created_at: Option<Seq<char>>,
    pub updated_at: Option<Seq<char>>,
    pub url: Option<Seq<char>>,
    pub labels: Seq<Seq<char>>,
    pub body: Option<Seq<char>>,
}

/// The meaning of a [`ProviderResult`].
pub struct ResultModel {
    pub provider: Seq<char>,
    pub resource_type: Seq<char>,
    pub items: Seq<ItemModel>,
    pub total_count: Option<usize>,
    pub truncated: bool,
}

impl View for ProviderItem {
    type V = ItemModel;

    open spec fn view(&self) -> ItemModel {
        ItemModel {
            id: self.id@,
            title: self.title@,
            state: text::opt_owned(self.state),
            author: text::opt_owned(self.author),
            created_at: text::opt_owned(self.created_at),
            updated_at: text::opt_owned(self.updated_at),
            url: text::opt_owned(self.url),
            labels: text::views(self.labels@),
            body: text::opt_owned(self.body),
        }
    }
}

impl View for ProviderResult {
    type V = ResultModel;

    open spec fn view(&self) -> ResultModel {
        ResultModel {
            provider: self.provider@,
            resource_type: self.resource_type@,
            items: text::views(self.items@),
            total_count: self.total_count,
            truncated: self.truncated,
        }
    }
}

} // verus!
