//! What an import works with.
pub use crate::nodes::import::room_map::{CsvRow, RoomMap};
pub use crate::nodes::import::rooms::NewRoom;
pub use crate::nodes::import::tasks::{
    RoomGroupTask, RoomPoliciesTask, RoomPoliciesUpdate, RoomUserTask, UpdateRoomTaskType,
    UpdateTask, UpdateTaskType, UpdateTasksChannel,
};
pub use crate::nodes::import::template::HeaderIndexes;
pub use crate::nodes::models::{
    GroupMemberAcceptance, GroupRoomPermission, NodePermissions, Room, RoomId, RoomImport,
    RoomPolicies, UserRoomPermission,
};
