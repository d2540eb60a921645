//! An object/association graph store: typed objects joined by typed,
//! directed associations, kept in backing tables held in memory and read
//! through three bounded least-recently-used caches.

pub mod cache;
pub mod model;
pub mod durable;
pub mod query;
pub mod store;
pub mod laws;
pub mod dto;
pub mod rules;
pub mod indexer_tags;
pub mod graph;

pub use cache::{BoundedCache, CacheKey};
pub use dto::{
    ApiResponse, CreateFollowRequest, CreateFriendshipRequest, CreateLikeRequest, CreatePostRequest,
    CreateUserRequest, UpdateUserRequest, UserProfile, UserStats,
};
pub use indexer_tags::IndexerTags;
pub use model::{
    AssocKey, AssociationQuery, AssociationType, ObjectType, TaoAssociation, TaoError, TaoObject,
};
pub use query::apply_limit_offset;
pub use rules::apply_user_update;
pub use store::TaoDatabase;
