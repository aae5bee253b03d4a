//! Hermes: the Cybercore portfolio's Discord bot, as a verified library.
//! It holds the tracked-repository registry, the text of every slash-command
//! reply, the server audit, the #dev-log digest decisions and the
//! subscription store; the bot around it talks to Discord, GitHub and disk.
pub mod text;
pub mod order;
pub mod repos;
pub mod github;
pub mod commands;
pub mod audit;
pub mod devlog;
pub mod subscriptions;
