//! What the Kubernetes operator keeps for each cluster resource.

pub mod crd;
pub mod reconciler;
