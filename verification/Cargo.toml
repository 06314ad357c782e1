[package]
name = "glitchwing"
version = "0.1.0"
edition = "2021"
publish = false

[dependencies]
font8x8 = "0.3"
zune-jpeg = "0.4"
minifb = "0.27"
gilrs = "0.11"
log = "0.4"
android-activity = { version = "0.6", features = ["native-activity"] }
android_logger = "0.14"
jni = "0.21"
ndk = "0.9"
ndk-context = "0.1"
