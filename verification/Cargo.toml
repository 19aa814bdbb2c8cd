[package]
name = "unlock_all"
version = "0.1.0"
edition = "2021"
publish = false

[dependencies]
parking_lot = "0.12"
retour = "0.3"
windows-sys = { version = "0.59", features = ["Win32_Foundation", "Win32_Security", "Win32_System_LibraryLoader", "Win32_System_Memory", "Win32_System_Threading", "Win32_System_SystemServices", "Win32_System_Diagnostics_Debug", "Win32_System_Diagnostics_ToolHelp", "Win32_UI_WindowsAndMessaging"] }
