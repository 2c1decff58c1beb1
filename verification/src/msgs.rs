//! The request vocabulary of the surrounding application: plain message
//! values its driver sends to schedule work against this core. They carry
//! configuration only; the work itself is done by the functions of the
//! `discovery` and `links` modules.

use vstd::prelude::*;

verus! {

/// Ask for a discovery pass over all watched directories.
pub struct DiscoverFiles;

/// Ask for a scan that lists unread episodes whose file is gone from disk.
pub struct FindAndRemoveDanglingFiles;

/// Ask for a datastore connection.
pub struct RequestConnection;

/// Replace the data shown for a list of rows.
pub struct UpdateListRowData<T>(pub Vec<T>);

/// Ask for the media-type list to be reloaded.
pub struct UpdateMediaTypesList;

/// Ask for the series list to be reloaded.
pub struct UpdateSeriesesList;

/// Carry fresh row data to the holder of a model value.
pub struct UpdateActorData<T>(pub T);

/// Begin adding a new row.
pub struct InitiateNewRowSequence;

/// Ask for the base directory configured for a media type.
pub struct GetBaseDirForMediaType;

/// Replace a held model value.
pub struct UpdateModel<T>(pub T);

/// Keep the links directory under the given path up to date from now on.
pub struct MaintainLinksDirectory(pub String);

/// Reconcile the links directory now.
pub struct RefreshLinksDirectory;

} // verus!
