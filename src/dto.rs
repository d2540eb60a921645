//! Requests that the relationship rules take, and the records they return.
use vstd::prelude::*;

verus! {

pub struct CreateUserRequest {
    pub username: String,
    pub email: String,
    pub full_name: Option<String>,
    pub bio: Option<String>,
    pub location: Option<String>,
}

pub struct UpdateUserRequest {
    pub username: Option<String>,
    pub email: Option<String>,
    pub full_name: Option<String>,
    pub bio: Option<String>,
    pub location: Option<String>,
}

pub struct CreatePostRequest {
    pub author_id: i64,
    pub content: String,
    pub post_type: String,
    pub visibility: Option<String>,
    pub media_url: Option<String>,
}

pub struct CreateFriendshipRequest {
    pub user1_id: i64,
    pub user2_id: i64,
    pub relationship_type: Option<String>,
}

pub struct CreateFollowRequest {
    pub follower_id: i64,
    pub followee_id: i64,
    pub follow_type: Option<String>,
}

pub struct CreateLikeRequest {
    pub user_id: i64,
    pub target_id: i64,
    pub reaction_type: String,
}

/// The decoded record of a user.
pub struct UserProfile {
    pub username: String,
    pub email: String,
    pub full_name: Option<String>,
    pub bio: Option<String>,
    pub profile_picture_url: Option<String>,
    pub created_time: i64,
    pub last_active_time: Option<i64>,
    pub is_verified: bool,
    pub location: Option<String>,
}

/// Edge counts of one user.
#[derive(Debug, Clone, Copy, PartialEq, Eq, Structural)]
pub struct UserStats {
    pub user_id: i64,
    pub friend_count: i64,
    pub follower_count: i64,
    pub following_count: i64,
    pub post_count: i64,
}

/// The envelope of a successful answer.
pub struct ApiResponse<T> {
    pub success: bool,
    pub data: Option<T>,
    pub message: Option<String>,
}

impl<T> ApiResponse<T> {
    pub fn success(data: T) -> (r: Self)
        ensures
            r.success,
            r.data == Some(data),
            r.message is None,
    {
        ApiResponse { success: true, data: Some(data), message: None }
    }

    pub fn success_with_message(data: T, message: String) -> (r: Self)
        ensures
            r.success,
            r.data == Some(data),
            r.message == Some(message),
    {
        ApiResponse { success: true, data: Some(data), message: Some(message) }
    }
}

impl ApiResponse<()> {
    pub fn success_message(message: String) -> (r: Self)
        ensures
            r.success,
            r.data is None,
            r.message == Some(message),
    {
        ApiResponse { success: true, data: None, message: Some(message) }
    }
}

} // verus!
