//! Error kinds of the pipeline. Every stage fails fast: the first error
//! aborts the whole invocation and is handed to the caller.

use vstd::prelude::*;

verus! {

/// The way in which a catalog node is structurally invalid.
#[derive(Debug, Clone, Copy, PartialEq, Eq, Structural)]
pub enum CatalogIssue {
    /// The goods catalog has no list of goods, or it is not a list.
    GoodsNotList,
    /// A good in the catalog has no name, or the name is not a string.
    GoodMissingName,
    /// The alternate names of a good are present but not a list.
    AltNamesNotList,
    /// An entry in a good's alternate-name list is not a string.
    AltNameNotString,
    /// The catalog has no list of merchants, or it is not a list.
    MerchantsNotList,
    /// A merchant has no name, or the name is not a string.
    MerchantMissingName,
    /// A merchant has no goods list, or it is not a list.
    MerchantGoodsNotList,
    /// An entry in a merchant's goods list is not a string.
    MerchantGoodNotString,
}

/// An error of the pipeline.
#[derive(Debug, Clone, PartialEq, Eq)]
pub enum Error {
    /// A token that should be an amount matches no recognized unit/number form.
    Parse,
    /// A line holds no name after trimming.
    EmptyLine,
    /// A line holds a recognized amount but no name after it.
    MissingName,
    /// Two amounts of different kinds were summed for one canonical name,
    /// which the payload carries.
    UnitMismatch(String),
    /// A summed magnitude does not fit the machine's integer range.
    Overflow,
    /// A goods or merchant catalog entry is structurally invalid.
    CatalogFormat(CatalogIssue),
}

/// The mathematical value of an [`Error`]: the carried name is a
/// sequence of characters.
pub enum ErrorSpec {
    Parse,
    EmptyLine,
    MissingName,
    UnitMismatch(Seq<char>),
    Overflow,
    CatalogFormat(CatalogIssue),
}

impl View for Error {
    type V = ErrorSpec;

    open spec fn view(&self) -> ErrorSpec {
        match self {
            Error::Parse => ErrorSpec::Parse,
            Error::EmptyLine => ErrorSpec::EmptyLine,
            Error::MissingName => ErrorSpec::MissingName,
            Error::UnitMismatch(name) => ErrorSpec::UnitMismatch(name@),
            Error::Overflow => ErrorSpec::Overflow,
            Error::CatalogFormat(issue) => ErrorSpec::CatalogFormat(*issue),
        }
    }
}

} // verus!
