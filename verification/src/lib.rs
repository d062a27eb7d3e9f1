//! A shopping-list pipeline: free-text lines are parsed into amounts and
//! names, names are normalized through an alias table built from a goods
//! catalog, equal goods are summed and sorted, and the result is optionally
//! partitioned across merchants from a declarative catalog.

use vstd::prelude::*;

pub mod aggregate;
pub mod amount;
pub mod catalog;
mod error;
pub mod line;
pub mod partition;
pub mod state;
pub mod text;

pub use aggregate::ShoppingListItem;
pub use partition::MerchantList;
pub use partition::ShoppingList;
pub use aggregate::SortedZettel;
pub use amount::Amount;
pub use catalog::AltNamesMapping;
pub use catalog::Config;
pub use catalog::ConfigNode;
pub use catalog::MerchantConfig;
pub use line::ParsedLine;
pub use state::ShoppingListResult;
pub use state::ShoppingListState;
pub use line::Zettel;
pub use error::CatalogIssue;
pub use error::Error;
pub use error::ErrorSpec;
